//! A budget from the text it is written as to the property that asks for it.

use vstd::prelude::*;
use vstd::string::*;
use crate::budget::{
    bound_text_v, budget_v, list_v, named_v, objective_v, resolved_v, terms_v, Amount, Budget,
};
use crate::layout::{
    joined_ends, list_back, list_pieces, split_key, tidy, trim_tidy, without, without_both,
};
use crate::num::Number;
use crate::text::{decimal, joined};
use crate::words::{has_prefix, is_white, split_once_v, split_v, trim_v};

verus! {

// ---------------------------------------------------------------------------
// the property
// ---------------------------------------------------------------------------

/// A term of the property bounds this component by this literal, by the time
/// the root is done.
pub open spec fn bounds_component(term: Seq<char>, c: int, literal: Seq<char>, root: u32) -> bool {
    term == "R{\"impact"@ + decimal(c as nat) + "\"}<="@ + literal + " [ F n"@ + decimal(root as nat)
        + "=-2 ]"@
}

/// The property is one conjunction with exactly one term for each component of
/// the budget, in their order, which bounds that component by the literal it was
/// written as.
pub proof fn every_bound_is_asked<V>(b: Seq<Amount<V>>, root: u32)
    ensures
        exists|ts: Seq<Seq<char>>|
            {
                &&& objective_v(b, root) == "multi("@ + #[trigger] joined(ts, ", "@) + ")\n"@
                &&& ts.len() == b.len()
                &&& forall|c: int|
                    0 <= c < b.len() ==> bounds_component(#[trigger] ts[c], c, b[c].text, root)
            },
{
    let ts = terms_v(b, root);
    assert(objective_v(b, root) == "multi("@ + joined(ts, ", "@) + ")\n"@);
    assert forall|c: int| 0 <= c < b.len() implies bounds_component(
        #[trigger] ts[c],
        c,
        b[c].text,
        root,
    ) by {}
}

/// One more component asks for one more bound and changes nothing of what was
/// asked: the property grows by a comma and the new term, before its end.
pub proof fn one_more_bound<V>(b: Seq<Amount<V>>, x: Amount<V>, root: u32)
    requires
        b.len() > 0,
    ensures
        ({
            let (old, new) = (objective_v(b, root), objective_v(b.push(x), root));
            &&& old.len() >= 2
            &&& exists|term: Seq<char>|
                #[trigger] bounds_component(term, b.len() as int, x.text, root) && new == old.take(
                    old.len() - 2,
                ) + ", "@ + term + ")\n"@
        }),
{
    let (ts, us) = (terms_v(b, root), terms_v(b.push(x), root));
    let term = us.last();
    assert(bounds_component(term, b.len() as int, x.text, root));
    assert(us.drop_last() =~= ts) by {
        assert forall|j: int| 0 <= j < ts.len() implies us[j] == ts[j] by {
            assert(b.push(x)[j] == b[j]);
        }
    }
    let (old, new) = (objective_v(b, root), objective_v(b.push(x), root));
    reveal_strlit(")\n");
    assert(old.take(old.len() - 2) =~= "multi("@ + joined(ts, ", "@));
    assert(new =~= old.take(old.len() - 2) + ", "@ + term + ")\n"@);
}

// ---------------------------------------------------------------------------
// the budget
// ---------------------------------------------------------------------------

/// A literal as a budget may hold it: a number, in one piece, that neither a
/// comma nor a bracket takes apart.
pub open spec fn literal<N: Number>(s: Seq<char>) -> bool {
    &&& tidy(s)
    &&& without(s, ',')
    &&& s[0] != '{'
    &&& s[0] != '['
    &&& N::read_v(s) is Some
}

/// These amounts are those literals: as many, each with its text and its value.
pub open spec fn spelled<N: Number>(v: Seq<Amount<N::Value>>, ps: Seq<Seq<char>>) -> bool {
    &&& v.len() == ps.len()
    &&& forall|i: int|
        0 <= i < ps.len() ==> (#[trigger] v[i]).text == ps[i] && Some(v[i].value) == N::read_v(ps[i])
}

proof fn list_spelled<N: Number>(cut: Seq<Seq<char>>, ps: Seq<Seq<char>>, i: int)
    requires
        0 <= i <= ps.len(),
        cut.len() == ps.len(),
        forall|j: int| 0 <= j < ps.len() ==> trim_v(#[trigger] cut[j]) == ps[j],
        forall|j: int| 0 <= j < ps.len() ==> literal::<N>(#[trigger] ps[j]),
    ensures
        list_v::<N>(cut, i) matches Ok(v) && spelled::<N>(v, ps.skip(i)),
    decreases ps.len() - i,
{
    if i < ps.len() {
        list_spelled::<N>(cut, ps, i + 1);
        assert(literal::<N>(ps[i]));
        assert(trim_v(cut[i]) == ps[i]);
        let v = list_v::<N>(cut, i)->Ok_0;
        let w = list_v::<N>(cut, i + 1)->Ok_0;
        assert forall|j: int| 0 <= j < ps.skip(i).len() implies (#[trigger] v[j]).text == ps.skip(i)[j]
            && Some(v[j].value) == N::read_v(ps.skip(i)[j]) by {
            if j > 0 {
                assert(v[j] == w[j - 1]);
                assert(ps.skip(i)[j] == ps.skip(i + 1)[j - 1]);
                assert(w[j - 1].text == ps.skip(i + 1)[j - 1]);
            }
        }
    }
}

/// The text between two brackets, with nothing around them, is what it was.
proof fn bracketed(open: char, inner: Seq<char>, close: char)
    requires
        !is_white(open),
        !is_white(close),
    ensures
        ({
            let t = seq![open] + inner + seq![close];
            &&& trim_v(t) == t
            &&& t[0] == open
            &&& t.last() == close
            &&& t.len() >= 2
            &&& t.subrange(1, t.len() - 1) == inner
        }),
{
    let t = seq![open] + inner + seq![close];
    trim_tidy(t);
    assert(t.subrange(1, t.len() - 1) =~= inner);
}

/// A budget is read as it was written: the literals with commas between them,
/// in brackets or without, are one component each, in their order, every one
/// with its text and its value.
pub proof fn lists_are_read<N: Number>(ps: Seq<Seq<char>>)
    requires
        ps.len() >= 1,
        forall|i: int| 0 <= i < ps.len() ==> literal::<N>(#[trigger] ps[i]),
    ensures
        ({
            let all = joined(ps, seq![',', ' ']);
            &&& budget_v::<N>(all) matches Ok(Budget::List(v)) && spelled::<N>(v, ps)
            &&& budget_v::<N>(seq!['['] + all + seq![']']) matches Ok(Budget::List(v)) && spelled::<N>(
                v,
                ps,
            )
        }),
{
    let sep = seq![',', ' '];
    let all = joined(ps, sep);
    assert forall|i: int| 0 <= i < ps.len() implies without(#[trigger] ps[i], ',') && tidy(ps[i]) by {
        assert(literal::<N>(ps[i]));
    }
    list_back(ps);
    assert forall|i: int| 0 <= i < ps.len() implies (#[trigger] ps[i]).len() > 0 by {
        assert(tidy(ps[i]));
    }
    joined_ends(ps, sep);
    assert(literal::<N>(ps[0]) && tidy(ps[ps.len() - 1]));
    trim_tidy(all);
    list_spelled::<N>(split_v(all, ',', 0), ps, 0);
    assert(ps.skip(0) =~= ps);
    bracketed('[', all, ']');
}

/// An entry of a table: a name, a colon and a literal.
pub open spec fn entry_text(n: Seq<char>, p: Seq<char>) -> Seq<char> {
    n + seq![':', ' '] + p
}

pub open spec fn entry_texts(ns: Seq<Seq<char>>, ps: Seq<Seq<char>>) -> Seq<Seq<char>> {
    Seq::new(ns.len(), |i: int| entry_text(ns[i], ps[i]))
}

/// A name as a budget may hold it.
pub open spec fn budget_name(n: Seq<char>) -> bool {
    tidy(n) && without(n, ',') && without(n, ':')
}

pub open spec fn tabled<N: Number>(
    v: Seq<(Seq<char>, Amount<N::Value>)>,
    ns: Seq<Seq<char>>,
    ps: Seq<Seq<char>>,
) -> bool {
    &&& v.len() == ns.len()
    &&& forall|i: int|
        0 <= i < ns.len() ==> {
            &&& (#[trigger] v[i]).0 == ns[i]
            &&& v[i].1.text == ps[i]
            &&& Some(v[i].1.value) == N::read_v(ps[i])
        }
}

/// An entry, with a blank before it or without, comes apart at its colon.
proof fn entry_back(n: Seq<char>, p: Seq<char>, cut: Seq<char>)
    requires
        budget_name(n),
        tidy(p),
        trim_v(cut) == entry_text(n, p),
        cut == entry_text(n, p) || cut == seq![' '] + entry_text(n, p),
    ensures
        split_once_v(cut, ':') matches Some((a, b)) && trim_v(a) == n && trim_v(b) == p,
{
    let rest = seq![' '] + p;
    trim_tidy(n);
    trim_tidy(p);
    if cut == entry_text(n, p) {
        split_key(n, rest);
        assert(cut =~= n + seq![':'] + rest);
    } else {
        let m = seq![' '] + n;
        assert forall|i: int| 0 <= i < m.len() implies #[trigger] m[i] != ':' by {
            if i > 0 {
                assert(m[i] == n[i - 1]);
            }
        }
        split_key(m, rest);
        assert(cut =~= m + seq![':'] + rest);
    }
}

proof fn table_spelled<N: Number>(
    cut: Seq<Seq<char>>,
    ns: Seq<Seq<char>>,
    ps: Seq<Seq<char>>,
    i: int,
)
    requires
        0 <= i <= ns.len(),
        cut.len() == ns.len(),
        ps.len() == ns.len(),
        forall|j: int|
            0 <= j < ns.len() ==> (split_once_v(#[trigger] cut[j], ':') matches Some((a, b)) && trim_v(a)
                == ns[j] && trim_v(b) == ps[j]),
        forall|j: int| 0 <= j < ns.len() ==> N::read_v(#[trigger] ps[j]) is Some,
    ensures
        named_v::<N>(cut, i) matches Ok(v) && tabled::<N>(v, ns.skip(i), ps.skip(i)),
    decreases ns.len() - i,
{
    if i < ns.len() {
        table_spelled::<N>(cut, ns, ps, i + 1);
        let (a, b) = split_once_v(cut[i], ':')->0;
        assert(trim_v(a) == ns[i] && trim_v(b) == ps[i]);
        assert(N::read_v(ps[i]) is Some);
        let v = named_v::<N>(cut, i)->Ok_0;
        let w = named_v::<N>(cut, i + 1)->Ok_0;
        let (ms, qs) = (ns.skip(i), ps.skip(i));
        assert forall|j: int| 0 <= j < ms.len() implies {
            &&& (#[trigger] v[j]).0 == ms[j]
            &&& v[j].1.text == qs[j]
            &&& Some(v[j].1.value) == N::read_v(qs[j])
        } by {
            if j > 0 {
                assert(v[j] == w[j - 1]);
                assert(ms[j] == ns.skip(i + 1)[j - 1]);
                assert(qs[j] == ps.skip(i + 1)[j - 1]);
                assert(w[j - 1].0 == ns.skip(i + 1)[j - 1]);
            }
        }
    }
}

/// A list comes apart with its blanks.
proof fn blanks_left(ps: Seq<Seq<char>>, i: int)
    requires
        0 <= i < ps.len(),
        forall|j: int| 0 <= j < ps.len() ==> without(#[trigger] ps[j], ',') && tidy(ps[j]),
    ensures
        ({
            let c = split_v(joined(ps, seq![',', ' ']), ',', 0);
            c.len() == ps.len() && (c[i] == ps[i] || c[i] == seq![' '] + ps[i])
        }),
{
    list_pieces(ps);
}

/// A table is read as it was written: one entry for each name, in their order,
/// with the text and the value of its literal.
pub proof fn tables_are_read<N: Number>(ns: Seq<Seq<char>>, ps: Seq<Seq<char>>)
    requires
        ns.len() >= 1,
        ns.len() == ps.len(),
        forall|i: int| 0 <= i < ns.len() ==> budget_name(#[trigger] ns[i]),
        forall|i: int| 0 <= i < ps.len() ==> literal::<N>(#[trigger] ps[i]),
    ensures
        budget_v::<N>(
            seq!['{'] + joined(entry_texts(ns, ps), seq![',', ' ']) + seq!['}'],
        ) matches Ok(Budget::Named(v)) && tabled::<N>(v, ns, ps),
{
    let sep = seq![',', ' '];
    let es = entry_texts(ns, ps);
    let all = joined(es, sep);
    assert forall|i: int| 0 <= i < es.len() implies without(#[trigger] es[i], ',') && tidy(es[i]) by {
        assert(budget_name(ns[i]) && literal::<N>(ps[i]));
        assert(without(seq![':', ' '], ','));
        without_both(ns[i], seq![':', ' '], ',');
        without_both(ns[i] + seq![':', ' '], ps[i], ',');
    }
    list_back(es);
    let cut = split_v(all, ',', 0);
    assert forall|j: int| 0 <= j < ns.len() implies (split_once_v(#[trigger] cut[j], ':') matches Some(
        (a, b),
    ) && trim_v(a) == ns[j] && trim_v(b) == ps[j]) by {
        assert(budget_name(ns[j]) && literal::<N>(ps[j]));
        blanks_left(es, j);
        assert(es[j] == entry_text(ns[j], ps[j]));
        entry_back(ns[j], ps[j], cut[j]);
    }
    assert forall|j: int| 0 <= j < ns.len() implies N::read_v(#[trigger] ps[j]) is Some by {
        assert(literal::<N>(ps[j]));
    }
    table_spelled::<N>(cut, ns, ps, 0);
    assert(ns.skip(0) =~= ns && ps.skip(0) =~= ps);
    bracketed('{', all, '}');
}

/// An array is taken as it stands, exactly where it has one value for each
/// component of the instance.
pub proof fn arrays_are_kept<V>(v: Seq<Amount<V>>, names: Seq<Seq<char>>, k: nat)
    ensures
        resolved_v(Budget::List(v), names, k) is Ok <==> v.len() == k,
        resolved_v(Budget::List(v), names, k) matches Ok(w) ==> w == v,
{
}

/// The budget of a file stands on the first of its lines that begins with the
/// key `B:`, and nothing else of the file matters.
pub proof fn files_are_read<N: Number>(path: Seq<char>, ls: Seq<Seq<char>>, n: int, i: int)
    requires
        0 <= i <= n < ls.len(),
        has_prefix(trim_v(ls[n]), "B:"@),
        forall|j: int| 0 <= j < n ==> !has_prefix(trim_v(#[trigger] ls[j]), "B:"@),
    ensures
        bound_text_v::<N>(path, ls, i) is Ok <==> budget_v::<N>(trim_v(trim_v(ls[n]).skip(2))) is Ok,
        bound_text_v::<N>(path, ls, i) matches Ok(b) ==> budget_v::<N>(
            trim_v(trim_v(ls[n]).skip(2)),
        ) == Ok::<Budget<N::Value>, Seq<char>>(b),
    decreases n - i,
{
    if i < n {
        assert(!has_prefix(trim_v(ls[i]), "B:"@));
        files_are_read::<N>(path, ls, n, i + 1);
    }
}

} // verus!
