//! The budget: how it is written, and how it is put in the order of an instance.

use vstd::prelude::*;
use vstd::slice::slice_subrange;
use vstd::string::*;
use crate::args::{Args, Source};
use crate::num::Number;
use crate::text::{
    cat2, cat3, cat5, chars_of, decimal, decimal_of, join, joined, quote, quoted, same_text,
    text_of, texts,
};
use crate::words::{
    has_prefix, lines, lines_v, pieces, split, split_once, split_once_v, split_v, strip_prefix,
    trim, trim_v,
};

verus! {

/// One component of the budget: the value, and the literal it was written as,
/// so that what goes into an emitted objective is what the writer typed and
/// never a reformatting of it.
pub struct BVal<N> {
    pub text: String,
    pub value: N,
}

/// A component as it was written, and its value.
pub struct Amount<V> {
    pub text: Seq<char>,
    pub value: V,
}

impl<N: Number> BVal<N> {
    pub open spec fn amount(self) -> Amount<N::Value> {
        Amount { text: self.text@, value: self.value.value() }
    }
}

/// A budget as given, before the instance fixes the order of its components:
/// either the array itself, or a map from impact names to values that is
/// rearranged against the `impact_names` of the instance.
pub enum BSpec<N> {
    List(Vec<BVal<N>>),
    Named(Vec<(String, BVal<N>)>),
}

/// A budget as given.
pub enum Budget<V> {
    List(Seq<Amount<V>>),
    Named(Seq<(Seq<char>, Amount<V>)>),
}

pub open spec fn amounts<N: Number>(v: Seq<BVal<N>>) -> Seq<Amount<N::Value>> {
    Seq::new(v.len(), |i: int| v[i].amount())
}

pub open spec fn entries<N: Number>(v: Seq<(String, BVal<N>)>) -> Seq<(Seq<char>, Amount<N::Value>)> {
    Seq::new(v.len(), |i: int| (v[i].0@, v[i].1.amount()))
}

impl<N: Number> BSpec<N> {
    pub open spec fn budget(self) -> Budget<N::Value> {
        match self {
            BSpec::List(v) => Budget::List(amounts(v@)),
            BSpec::Named(v) => Budget::Named(entries(v@)),
        }
    }
}

/// The components these pieces stand for, from the one of index `i` on.
pub open spec fn list_v<N: Number>(ps: Seq<Seq<char>>, i: int) -> Result<
    Seq<Amount<N::Value>>,
    Seq<char>,
>
    decreases ps.len() - i,
{
    if i >= ps.len() {
        Ok(Seq::empty())
    } else {
        match N::read_v(trim_v(ps[i])) {
            None => Err(quoted(ps[i]) + " is not a number"@),
            Some(x) => match list_v::<N>(ps, i + 1) {
                Ok(rest) => Ok(seq![Amount { text: trim_v(ps[i]), value: x }] + rest),
                Err(e) => Err(e),
            },
        }
    }
}

/// The named components these pieces stand for, from the one of index `i` on.
pub open spec fn named_v<N: Number>(ps: Seq<Seq<char>>, i: int) -> Result<
    Seq<(Seq<char>, Amount<N::Value>)>,
    Seq<char>,
>
    decreases ps.len() - i,
{
    if i >= ps.len() {
        Ok(Seq::empty())
    } else {
        match split_once_v(ps[i], ':') {
            None => Err("`"@ + trim_v(ps[i]) + "` in B is not `name: value`"@),
            Some((n, v)) => match N::read_v(trim_v(v)) {
                None => Err("`"@ + trim_v(v) + "` in B is not a number"@),
                Some(x) => match named_v::<N>(ps, i + 1) {
                    Ok(rest) => Ok(
                        seq![(trim_v(n), Amount { text: trim_v(v), value: x })] + rest,
                    ),
                    Err(e) => Err(e),
                },
            },
        }
    }
}

/// The budget from one piece of text: `a, b, ...` or `[a, b, ...]` is the
/// array, `{name: value, ...}` is the named form.
pub open spec fn budget_v<N: Number>(text: Seq<char>) -> Result<Budget<N::Value>, Seq<char>> {
    let t = trim_v(text);
    if t.len() > 0 && t[0] == '{' {
        if t.len() < 2 || t.last() != '}' {
            Err("B opens with '{' and never closes it"@)
        } else {
            match named_v::<N>(split_v(t.subrange(1, t.len() - 1), ',', 0), 0) {
                Ok(ps) => Ok(Budget::Named(ps)),
                Err(e) => Err(e),
            }
        }
    } else if t.len() > 0 && t[0] == '[' {
        if t.len() < 2 || t.last() != ']' {
            Err("B opens with '[' and never closes it"@)
        } else {
            match list_v::<N>(split_v(t.subrange(1, t.len() - 1), ',', 0), 0) {
                Ok(ps) => Ok(Budget::List(ps)),
                Err(e) => Err(e),
            }
        }
    } else {
        match list_v::<N>(split_v(t, ',', 0), 0) {
            Ok(ps) => Ok(Budget::List(ps)),
            Err(e) => Err(e),
        }
    }
}

fn vector<N: Number>(text: &[char]) -> (r: Result<Vec<BVal<N>>, String>)
    ensures
        match r {
            Ok(v) => list_v::<N>(split_v(text@, ',', 0), 0) == Ok::<
                Seq<Amount<N::Value>>,
                Seq<char>,
            >(amounts(v@)),
            Err(e) => list_v::<N>(split_v(text@, ',', 0), 0) == Err::<
                Seq<Amount<N::Value>>,
                Seq<char>,
            >(e@),
        },
{
    let parts = split(text, ',');
    let ghost ps = pieces(parts@);
    let ghost whole = list_v::<N>(ps, 0);
    let mut out: Vec<BVal<N>> = Vec::new();
    proof {
        if whole is Ok {
            assert(amounts(out@) + whole->Ok_0 =~= whole->Ok_0);
        }
    }
    for i in 0..parts.len()
        invariant
            ps == pieces(parts@),
            ps == split_v(text@, ',', 0),
            whole == list_v::<N>(ps, 0),
            match list_v::<N>(ps, i as int) {
                Ok(xs) => whole == Ok::<Seq<Amount<N::Value>>, Seq<char>>(amounts(out@) + xs),
                Err(f) => whole == Err::<Seq<Amount<N::Value>>, Seq<char>>(f),
            },
    {
        assert(ps[i as int] == parts@[i as int]@);
        let t = text_of(trim(parts[i].as_slice()));
        match N::read(t.as_str()) {
            None => {
                let p = text_of(parts[i].as_slice());
                return Err(cat2(quote(p.as_str()).as_str(), " is not a number"));
            },
            Some(value) => {
                let ghost before = amounts(out@);
                let b = BVal { text: t, value };
                let ghost one = b.amount();
                out.push(b);
                proof {
                    assert(amounts(out@) =~= before.push(one));
                    if list_v::<N>(ps, i + 1) is Ok {
                        let xs = list_v::<N>(ps, i + 1)->Ok_0;
                        assert(before + (seq![one] + xs) =~= amounts(out@) + xs);
                    }
                }
            },
        }
    }
    assert(amounts(out@) + Seq::<Amount<N::Value>>::empty() =~= amounts(out@));
    Ok(out)
}

fn table<N: Number>(text: &[char]) -> (r: Result<Vec<(String, BVal<N>)>, String>)
    ensures
        match r {
            Ok(v) => named_v::<N>(split_v(text@, ',', 0), 0) == Ok::<
                Seq<(Seq<char>, Amount<N::Value>)>,
                Seq<char>,
            >(entries(v@)),
            Err(e) => named_v::<N>(split_v(text@, ',', 0), 0) == Err::<
                Seq<(Seq<char>, Amount<N::Value>)>,
                Seq<char>,
            >(e@),
        },
{
    let parts = split(text, ',');
    let ghost ps = pieces(parts@);
    let ghost whole = named_v::<N>(ps, 0);
    let mut out: Vec<(String, BVal<N>)> = Vec::new();
    proof {
        if whole is Ok {
            assert(entries(out@) + whole->Ok_0 =~= whole->Ok_0);
        }
    }
    for i in 0..parts.len()
        invariant
            ps == pieces(parts@),
            ps == split_v(text@, ',', 0),
            whole == named_v::<N>(ps, 0),
            match named_v::<N>(ps, i as int) {
                Ok(xs) => whole == Ok::<Seq<(Seq<char>, Amount<N::Value>)>, Seq<char>>(
                    entries(out@) + xs,
                ),
                Err(f) => whole == Err::<Seq<(Seq<char>, Amount<N::Value>)>, Seq<char>>(f),
            },
    {
        assert(ps[i as int] == parts@[i as int]@);
        match split_once(parts[i].as_slice(), ':') {
            None => {
                let t = text_of(trim(parts[i].as_slice()));
                return Err(cat3("`", t.as_str(), "` in B is not `name: value`"));
            },
            Some((n, v)) => {
                let t = text_of(trim(v));
                match N::read(t.as_str()) {
                    None => {
                        return Err(cat3("`", t.as_str(), "` in B is not a number"));
                    },
                    Some(value) => {
                        let ghost before = entries(out@);
                        let b = BVal { text: t, value };
                        let name = text_of(trim(n));
                        let ghost one = (name@, b.amount());
                        out.push((name, b));
                        proof {
                            assert(entries(out@) =~= before.push(one));
                            if named_v::<N>(ps, i + 1) is Ok {
                                let xs = named_v::<N>(ps, i + 1)->Ok_0;
                                assert(before + (seq![one] + xs) =~= entries(out@) + xs);
                            }
                        }
                    },
                }
            },
        }
    }
    assert(entries(out@) + Seq::<(Seq<char>, Amount<N::Value>)>::empty() =~= entries(out@));
    Ok(out)
}

/// The budget from one piece of text.
pub fn parse_bspec<N: Number>(text: &str) -> (r: Result<BSpec<N>, String>)
    ensures
        match r {
            Ok(b) => budget_v::<N>(text@) == Ok::<Budget<N::Value>, Seq<char>>(b.budget()),
            Err(e) => budget_v::<N>(text@) == Err::<Budget<N::Value>, Seq<char>>(e@),
        },
{
    let all = chars_of(text);
    let t = trim(all.as_slice());
    let n = t.len();
    if n > 0 && t[0] == '{' {
        if n < 2 || t[n - 1] != '}' {
            return Err(String::from_str("B opens with '{' and never closes it"));
        }
        match table(slice_subrange(t, 1, n - 1)) {
            Ok(v) => Ok(BSpec::Named(v)),
            Err(e) => Err(e),
        }
    } else if n > 0 && t[0] == '[' {
        if n < 2 || t[n - 1] != ']' {
            return Err(String::from_str("B opens with '[' and never closes it"));
        }
        match vector(slice_subrange(t, 1, n - 1)) {
            Ok(v) => Ok(BSpec::List(v)),
            Err(e) => Err(e),
        }
    } else {
        match vector(t) {
            Ok(v) => Ok(BSpec::List(v)),
            Err(e) => Err(e),
        }
    }
}

/// The budget of the first line from `i` on that carries the key `B:`. Other
/// keys and comments are passed over.
pub open spec fn bound_text_v<N: Number>(path: Seq<char>, ls: Seq<Seq<char>>, i: int) -> Result<
    Budget<N::Value>,
    Seq<char>,
>
    decreases ls.len() - i,
{
    if i >= ls.len() {
        Err(path + ": no `B:` key in it"@)
    } else {
        let t = trim_v(ls[i]);
        if has_prefix(t, "B:"@) {
            match budget_v::<N>(trim_v(t.skip(2))) {
                Ok(b) => Ok(b),
                Err(e) => Err(path + ": "@ + e),
            }
        } else {
            bound_text_v::<N>(path, ls, i + 1)
        }
    }
}

/// The budget from the text of a file holding one key, `B: [a, b, ...]` or
/// `B: {name: value, ...}`, on one line. Other keys are ignored, so a file that
/// also records where the numbers came from stays readable here.
pub fn bound_text<N: Number>(path: &str, text: &str) -> (r: Result<BSpec<N>, String>)
    ensures
        match r {
            Ok(b) => bound_text_v::<N>(path@, lines_v(text@, 0), 0) == Ok::<
                Budget<N::Value>,
                Seq<char>,
            >(b.budget()),
            Err(e) => bound_text_v::<N>(path@, lines_v(text@, 0), 0) == Err::<
                Budget<N::Value>,
                Seq<char>,
            >(e@),
        },
{
    let all = chars_of(text);
    let ls = lines(all.as_slice());
    let ghost ps = pieces(ls@);
    let key = chars_of("B:");
    proof {
        reveal_strlit("B:");
    }
    for i in 0..ls.len()
        invariant
            ps == pieces(ls@),
            ps == lines_v(text@, 0),
            key@ == "B:"@,
            "B:"@.len() == 2,
            bound_text_v::<N>(path@, ps, 0) == bound_text_v::<N>(path@, ps, i as int),
    {
        assert(ps[i as int] == ls@[i as int]@);
        match strip_prefix(trim(ls[i].as_slice()), key.as_slice()) {
            None => {},
            Some(rest) => {
                let t = text_of(trim(rest));
                return match parse_bspec(t.as_str()) {
                    Ok(b) => Ok(b),
                    Err(e) => Err(cat3(path, ": ", e.as_str())),
                };
            },
        }
    }
    Err(cat2(path, ": no `B:` key in it"))
}

// ---------------------------------------------------------------------------
// the order of the instance
// ---------------------------------------------------------------------------

/// Where a budget stands: in the file a flag names, or else in the value of
/// another.
pub fn budget_source(args: &Args) -> (r: Result<Source, String>)
    ensures
        match r {
            Ok(Source::File(f)) => args.given("B-file"@) == Some(f@),
            Ok(Source::Inline(t)) => args.given("B-file"@) is None && args.given("B"@) == Some(t@),
            Err(e) => e@ == "give --B or --B-file"@ && args.given("B-file"@) is None && args.given(
                "B"@,
            ) is None,
        },
{
    match args.flag("B-file") {
        Some(f) => Ok(Source::File(String::from_str(f))),
        None => match args.flag("B") {
            Some(t) => Ok(Source::Inline(String::from_str(t))),
            None => Err(String::from_str("give --B or --B-file")),
        },
    }
}

/// The first place of a name, from `i` on.
pub open spec fn place_v(names: Seq<Seq<char>>, n: Seq<char>, i: int) -> Option<int>
    decreases names.len() - i,
{
    if i >= names.len() {
        None
    } else if names[i] == n {
        Some(i)
    } else {
        place_v(names, n, i + 1)
    }
}

/// The slots once the entries from `i` on are put in them.
pub open spec fn slots_v<V>(
    pairs: Seq<(Seq<char>, Amount<V>)>,
    names: Seq<Seq<char>>,
    i: int,
    slots: Seq<Option<Amount<V>>>,
) -> Result<Seq<Option<Amount<V>>>, Seq<char>>
    decreases pairs.len() - i,
{
    if i >= pairs.len() {
        Ok(slots)
    } else {
        match place_v(names, pairs[i].0, 0) {
            None => Err(
                "B names `"@ + pairs[i].0 + "`, and the instance declares ["@ + joined(names, ", "@)
                    + "]"@,
            ),
            Some(p) => if slots[p] is Some {
                Err("B names `"@ + pairs[i].0 + "` twice"@)
            } else {
                slots_v(pairs, names, i + 1, slots.update(p, Some(pairs[i].1)))
            },
        }
    }
}

/// The names among the first `n` whose slots are empty.
pub open spec fn missing_v<V>(names: Seq<Seq<char>>, slots: Seq<Option<Amount<V>>>, n: int) -> Seq<
    Seq<char>,
>
    decreases n,
{
    if n <= 0 {
        Seq::empty()
    } else if slots[n - 1] is None {
        missing_v(names, slots, n - 1).push(names[n - 1])
    } else {
        missing_v(names, slots, n - 1)
    }
}

pub open spec fn empty_slots<V>(k: nat) -> Seq<Option<Amount<V>>> {
    Seq::new(k, |i: int| None)
}

/// The budget in the order of the instance. An array must carry one value per
/// component already; a map is rearranged against the names, and it must name
/// every impact of the instance exactly once.
pub open spec fn resolved_v<V>(b: Budget<V>, names: Seq<Seq<char>>, k: nat) -> Result<
    Seq<Amount<V>>,
    Seq<char>,
> {
    match b {
        Budget::List(v) => if v.len() == k {
            Ok(v)
        } else {
            Err("B has "@ + decimal(v.len()) + " components against "@ + decimal(k) + " declared"@)
        },
        Budget::Named(pairs) => if names.len() != k {
            Err("the instance carries no impact_names, so give B as an array"@)
        } else {
            match slots_v(pairs, names, 0, empty_slots(k)) {
                Err(e) => Err(e),
                Ok(slots) => {
                    let missing = missing_v(names, slots, k as int);
                    if missing.len() > 0 {
                        Err("B leaves ["@ + joined(missing, ", "@) + "] without a value"@)
                    } else {
                        Ok(Seq::new(k, |i: int| slots[i]->0))
                    }
                },
            }
        },
    }
}

proof fn place_bounds(names: Seq<Seq<char>>, n: Seq<char>, i: int)
    requires
        0 <= i <= names.len(),
    ensures
        place_v(names, n, i) matches Some(p) ==> i <= p < names.len() && names[p] == n && forall|j: int|
            i <= j < p ==> names[j] != n,
        place_v(names, n, i) is None ==> forall|j: int| i <= j < names.len() ==> names[j] != n,
    decreases names.len() - i,
{
    if i < names.len() && names[i] != n {
        place_bounds(names, n, i + 1);
    }
}

fn place(names: &Vec<String>, n: &str) -> (r: Option<usize>)
    ensures
        match r {
            Some(p) => place_v(texts(names@), n@, 0) == Some(p as int) && p < names@.len(),
            None => place_v(texts(names@), n@, 0) is None,
        },
{
    let ghost ns = texts(names@);
    for i in 0..names.len()
        invariant
            ns == texts(names@),
            place_v(ns, n@, 0) == place_v(ns, n@, i as int),
    {
        assert(ns[i as int] == names@[i as int]@);
        if same_text(names[i].as_str(), n) {
            return Some(i);
        }
    }
    None
}

spec fn slot_views<N: Number>(v: Seq<Option<BVal<N>>>) -> Seq<Option<Amount<N::Value>>> {
    Seq::new(
        v.len(),
        |i: int|
            match v[i] {
                Some(b) => Some(b.amount()),
                None => None,
            },
    )
}

fn dup_amount<N: Number>(b: &BVal<N>) -> (r: BVal<N>)
    ensures
        r.amount() == b.amount(),
{
    BVal { text: b.text.clone(), value: b.value.dup() }
}

/// Puts the named components in their slots.
fn fill_slots<N: Number>(pairs: &Vec<(String, BVal<N>)>, names: &Vec<String>) -> (r: Result<
    Vec<Option<BVal<N>>>,
    String,
>)
    ensures
        match r {
            Ok(v) => slots_v(entries(pairs@), texts(names@), 0, empty_slots(names@.len())) == Ok::<
                Seq<Option<Amount<N::Value>>>,
                Seq<char>,
            >(slot_views(v@)) && v@.len() == names@.len(),
            Err(e) => slots_v(entries(pairs@), texts(names@), 0, empty_slots(names@.len())) == Err::<
                Seq<Option<Amount<N::Value>>>,
                Seq<char>,
            >(e@),
        },
{
    let ghost ps = entries(pairs@);
    let ghost ns = texts(names@);
    let ghost whole = slots_v(ps, ns, 0, empty_slots(names@.len()));
    let mut slots: Vec<Option<BVal<N>>> = Vec::new();
    for i in 0..names.len()
        invariant
            slots@.len() == i,
            forall|j: int| 0 <= j < i ==> (#[trigger] slots@[j]) is None,
    {
        slots.push(None);
    }
    assert(slot_views(slots@) =~= empty_slots::<N::Value>(names@.len()));
    for i in 0..pairs.len()
        invariant
            ps == entries(pairs@),
            ns == texts(names@),
            slots@.len() == names@.len(),
            whole == slots_v(ps, ns, 0, empty_slots(names@.len())),
            whole == slots_v(ps, ns, i as int, slot_views(slots@)),
    {
        let name = pairs[i].0.as_str();
        assert(ps[i as int] == (pairs@[i as int].0@, pairs@[i as int].1.amount()));
        match place(names, name) {
            None => {
                let m = cat3("B names `", name, "`, and the instance declares [");
                return Err(cat3(m.as_str(), join(names, ", ").as_str(), "]"));
            },
            Some(p) => {
                assert(slot_views(slots@)[p as int] is Some == slots@[p as int] is Some);
                if slots[p].is_some() {
                    return Err(cat3("B names `", name, "` twice"));
                }
                let ghost before = slot_views(slots@);
                slots.set(p, Some(dup_amount(&pairs[i].1)));
                assert(slot_views(slots@) =~= before.update(p as int, Some(ps[i as int].1)));
            },
        }
    }
    Ok(slots)
}

fn missing<N: Number>(names: &Vec<String>, slots: &Vec<Option<BVal<N>>>) -> (r: Vec<String>)
    requires
        names@.len() == slots@.len(),
    ensures
        texts(r@) == missing_v(texts(names@), slot_views(slots@), names@.len() as int),
{
    let ghost ns = texts(names@);
    let ghost ss = slot_views(slots@);
    let mut out: Vec<String> = Vec::new();
    assert(texts(out@) =~= Seq::empty());
    for i in 0..names.len()
        invariant
            names@.len() == slots@.len(),
            ns == texts(names@),
            ss == slot_views(slots@),
            texts(out@) == missing_v(ns, ss, i as int),
    {
        assert(ss[i as int] is None == slots@[i as int] is None);
        if slots[i].is_none() {
            let ghost before = texts(out@);
            out.push(names[i].clone());
            assert(texts(out@) =~= before.push(ns[i as int]));
        }
    }
    out
}

proof fn none_missing<V>(names: Seq<Seq<char>>, slots: Seq<Option<Amount<V>>>, n: int)
    requires
        0 <= n <= slots.len(),
        n <= names.len(),
    ensures
        missing_v(names, slots, n).len() == 0 <==> forall|i: int| 0 <= i < n ==> (
        #[trigger] slots[i]) is Some,
    decreases n,
{
    if n > 0 {
        none_missing(names, slots, n - 1);
    }
}

/// The budget in the order of the instance.
pub fn resolve_b<N: Number>(spec: BSpec<N>, names: &Vec<String>, k: usize) -> (r: Result<
    Vec<BVal<N>>,
    String,
>)
    ensures
        match r {
            Ok(v) => resolved_v(spec.budget(), texts(names@), k as nat) == Ok::<
                Seq<Amount<N::Value>>,
                Seq<char>,
            >(amounts(v@)) && v@.len() == k,
            Err(e) => resolved_v(spec.budget(), texts(names@), k as nat) == Err::<
                Seq<Amount<N::Value>>,
                Seq<char>,
            >(e@),
        },
{
    match spec {
        BSpec::List(v) => {
            if v.len() == k {
                Ok(v)
            } else {
                Err(
                    cat5(
                        "B has ",
                        decimal_of(v.len() as u128).as_str(),
                        " components against ",
                        decimal_of(k as u128).as_str(),
                        " declared",
                    ),
                )
            }
        },
        BSpec::Named(pairs) => {
            if names.len() != k {
                return Err(
                    String::from_str("the instance carries no impact_names, so give B as an array"),
                );
            }
            let slots = match fill_slots(&pairs, names) {
                Ok(s) => s,
                Err(e) => {
                    return Err(e);
                },
            };
            let absent = missing(names, &slots);
            proof {
                none_missing(texts(names@), slot_views(slots@), k as int);
            }
            if absent.len() > 0 {
                return Err(cat3("B leaves [", join(&absent, ", ").as_str(), "] without a value"));
            }
            let ghost ss = slot_views(slots@);
            let mut out: Vec<BVal<N>> = Vec::new();
            for i in 0..slots.len()
                invariant
                    ss == slot_views(slots@),
                    forall|j: int| 0 <= j < slots@.len() ==> (#[trigger] ss[j]) is Some,
                    out@.len() == i,
                    forall|j: int| 0 <= j < i ==> (#[trigger] out@[j]).amount() == ss[j]->0,
            {
                assert(ss[i as int] is Some);
                if let Some(b) = &slots[i] {
                    out.push(dup_amount(b));
                }
            }
            assert(amounts(out@) =~= Seq::new(k as nat, |i: int| ss[i]->0));
            Ok(out)
        },
    }
}

/// The values of a budget.
pub fn values<N: Number>(b: &Vec<BVal<N>>) -> (r: Vec<N>)
    ensures
        r@.len() == b@.len(),
        forall|i: int| 0 <= i < b@.len() ==> (#[trigger] r@[i]).value() == b@[i].value.value(),
{
    let mut out: Vec<N> = Vec::new();
    for i in 0..b.len()
        invariant
            out@.len() == i,
            forall|j: int| 0 <= j < i ==> (#[trigger] out@[j]).value() == b@[j].value.value(),
    {
        out.push(b[i].value.dup());
    }
    out
}

/// The terms of an objective, one per component.
pub open spec fn terms_v<V>(b: Seq<Amount<V>>, root: u32) -> Seq<Seq<char>> {
    Seq::new(
        b.len(),
        |j: int|
            "R{\"impact"@ + decimal(j as nat) + "\"}<="@ + b[j].text + " [ F n"@ + decimal(root as nat)
                + "=-2 ]"@,
    )
}

/// The property that asks whether some scheduler keeps every expected total
/// reward within its bound by the time the root is done, every value as it was
/// written.
pub open spec fn objective_v<V>(b: Seq<Amount<V>>, root: u32) -> Seq<char> {
    "multi("@ + joined(terms_v(b, root), ", "@) + ")\n"@
}

/// The property that asks for the budget.
pub fn objective<N: Number>(b: &Vec<BVal<N>>, root: u32) -> (r: String)
    ensures
        r@ == objective_v(amounts(b@), root),
{
    let ghost ts = terms_v(amounts(b@), root);
    let mut parts: Vec<String> = Vec::new();
    for j in 0..b.len()
        invariant
            ts == terms_v(amounts(b@), root),
            parts@.len() == j,
            texts(parts@) =~= ts.take(j as int),
    {
        let s = cat5(
            "R{\"impact",
            decimal_of(j as u128).as_str(),
            "\"}<=",
            b[j].text.as_str(),
            " [ F n",
        );
        let s = cat3(s.as_str(), decimal_of(root as u128).as_str(), "=-2 ]");
        assert(ts[j as int] == s@);
        parts.push(s);
    }
    assert(texts(parts@) =~= ts);
    cat3("multi(", join(&parts, ", ").as_str(), ")\n")
}

// ---------------------------------------------------------------------------
// the named form
// ---------------------------------------------------------------------------

/// A name is given this amount.
pub open spec fn gives<V>(pairs: Seq<(Seq<char>, Amount<V>)>, n: Seq<char>, a: Amount<V>) -> bool {
    exists|j: int| 0 <= j < pairs.len() && #[trigger] pairs[j] == (n, a)
}

/// No name twice.
pub open spec fn distinct(names: Seq<Seq<char>>) -> bool {
    forall|i: int, j: int| 0 <= i < j < names.len() ==> names[i] != names[j]
}

/// The names a table uses.
pub open spec fn names_of<V>(pairs: Seq<(Seq<char>, Amount<V>)>) -> Seq<Seq<char>> {
    Seq::new(pairs.len(), |j: int| pairs[j].0)
}

/// What the slots hold once the entries before `i` are in them.
spec fn filled<V>(
    pairs: Seq<(Seq<char>, Amount<V>)>,
    names: Seq<Seq<char>>,
    i: int,
    slots: Seq<Option<Amount<V>>>,
) -> bool {
    &&& slots.len() == names.len()
    &&& distinct(names_of(pairs.take(i)))
    &&& forall|j: int| 0 <= j < i ==> names.contains(#[trigger] pairs[j].0)
    &&& forall|p: int|
        0 <= p < names.len() ==> match #[trigger] slots[p] {
            Some(a) => gives(pairs.take(i), names[p], a),
            None => !names_of(pairs.take(i)).contains(names[p]),
        }
}

proof fn filling<V>(
    pairs: Seq<(Seq<char>, Amount<V>)>,
    names: Seq<Seq<char>>,
    i: int,
    slots: Seq<Option<Amount<V>>>,
)
    requires
        0 <= i <= pairs.len(),
        distinct(names),
        filled(pairs, names, i, slots),
    ensures
        match slots_v(pairs, names, i, slots) {
            Ok(full) => filled(pairs, names, pairs.len() as int, full),
            Err(_) => !distinct(names_of(pairs)) || exists|j: int|
                0 <= j < pairs.len() && !names.contains((#[trigger] pairs[j]).0),
        },
    decreases pairs.len() - i,
{
    if i < pairs.len() {
        let (n, a) = pairs[i];
        place_bounds(names, n, 0);
        match place_v(names, n, 0) {
            None => {
                assert(!names.contains(pairs[i].0));
            },
            Some(p) => {
                let short = pairs.take(i);
                let long = pairs.take(i + 1);
                assert(names[p] == n);
                if slots[p] is Some {
                    let b = slots[p]->0;
                    assert(gives(short, names[p], b));
                    let j = choose|j: int| 0 <= j < short.len() && #[trigger] short[j] == (names[p], b);
                    assert(names_of(pairs)[j] == n);
                    assert(names_of(pairs)[i] == n);
                } else {
                    let next = slots.update(p, Some(a));
                    assert(distinct(names_of(long))) by {
                        assert forall|x: int, y: int| 0 <= x < y < names_of(long).len() implies names_of(
                            long,
                        )[x] != names_of(long)[y] by {
                            assert(names_of(long)[x] == names_of(short)[x]);
                            if y < i {
                                assert(names_of(long)[y] == names_of(short)[y]);
                            } else {
                                assert(!names_of(short).contains(names[p]));
                            }
                        }
                    }
                    assert forall|q: int| 0 <= q < names.len() implies match #[trigger] next[q] {
                        Some(b) => gives(long, names[q], b),
                        None => !names_of(long).contains(names[q]),
                    } by {
                        if q == p {
                            assert(long[i] == (n, a));
                        } else {
                            assert(next[q] == slots[q]);
                            if slots[q] is Some {
                                let b = slots[q]->0;
                                let j = choose|j: int|
                                    0 <= j < short.len() && #[trigger] short[j] == (names[q], b);
                                assert(long[j] == (names[q], b));
                            } else if names_of(long).contains(names[q]) {
                                let j = names_of(long).index_of(names[q]);
                                if j < i {
                                    assert(names_of(short)[j] == names[q]);
                                } else {
                                    assert(names[p] == names[q]);
                                }
                            }
                        }
                    }
                    filling(pairs, names, i + 1, next);
                }
            },
        }
    }
}

/// A named budget is accepted exactly where it names every impact of the
/// instance once and nothing else, and each component then holds the amount its
/// name was given.
pub proof fn named_resolves<V>(pairs: Seq<(Seq<char>, Amount<V>)>, names: Seq<Seq<char>>)
    requires
        distinct(names),
    ensures
        match resolved_v(Budget::Named(pairs), names, names.len()) {
            Ok(v) => {
                &&& distinct(names_of(pairs))
                &&& forall|j: int| 0 <= j < pairs.len() ==> names.contains(#[trigger] pairs[j].0)
                &&& v.len() == names.len()
                &&& forall|i: int| 0 <= i < names.len() ==> gives(pairs, names[i], #[trigger] v[i])
            },
            Err(_) => {
                ||| !distinct(names_of(pairs))
                ||| exists|j: int| 0 <= j < pairs.len() && !names.contains((#[trigger] pairs[j]).0)
                ||| exists|i: int|
                    0 <= i < names.len() && !names_of(pairs).contains(#[trigger] names[i])
            },
        },
{
    let k = names.len();
    let start = empty_slots::<V>(k);
    assert(names_of(pairs.take(0)) =~= Seq::empty());
    assert(filled(pairs, names, 0, start));
    filling(pairs, names, 0, start);
    if slots_v(pairs, names, 0, start) is Ok {
        let full = slots_v(pairs, names, 0, start)->Ok_0;
        assert(pairs.take(pairs.len() as int) =~= pairs);
        none_missing(names, full, k as int);
        if missing_v(names, full, k as int).len() > 0 {
            let i = choose|i: int| 0 <= i < k && (#[trigger] full[i]) is None;
            assert(!names_of(pairs).contains(names[i]));
        } else {
            let v = resolved_v(Budget::Named(pairs), names, k)->Ok_0;
            assert forall|i: int| 0 <= i < k implies gives(pairs, names[i], #[trigger] v[i]) by {
                assert(full[i] is Some);
            }
        }
    }
}

/// A named budget may be given in any order: two tables that hold the same
/// entries resolve to the same components.
pub proof fn order_is_free<V>(
    a: Seq<(Seq<char>, Amount<V>)>,
    b: Seq<(Seq<char>, Amount<V>)>,
    names: Seq<Seq<char>>,
)
    requires
        distinct(names),
        a.to_multiset() == b.to_multiset(),
        resolved_v(Budget::Named(a), names, names.len()) is Ok,
    ensures
        resolved_v(Budget::Named(b), names, names.len()) == resolved_v(
            Budget::Named(a),
            names,
            names.len(),
        ),
{
    named_resolves(a, names);
    named_resolves(b, names);
    a.to_multiset_ensures();
    b.to_multiset_ensures();
    let v = resolved_v(Budget::Named(a), names, names.len())->Ok_0;
    assert forall|j: int| 0 <= j < b.len() implies a.contains(#[trigger] b[j]) by {
        assert(b.contains(b[j]));
        assert(b.to_multiset().count(b[j]) > 0);
    }
    assert forall|j: int| 0 <= j < a.len() implies b.contains(#[trigger] a[j]) by {
        assert(a.contains(a[j]));
        assert(a.to_multiset().count(a[j]) > 0);
    }
    assert(distinct(names_of(b))) by {
        assert forall|x: int, y: int| 0 <= x < y < names_of(b).len() implies names_of(b)[x] != names_of(
            b,
        )[y] by {
            if names_of(b)[x] == names_of(b)[y] {
                let i = a.index_of(b[x]);
                let j = a.index_of(b[y]);
                assert(a.contains(b[x]) && a.contains(b[y]));
                assert(names_of(a)[i] == names_of(a)[j]);
                assert(i == j);
                assert(b[x] == b[y]);
                repeated(b, x, y);
                assert(a.to_multiset().count(b[x]) >= 2);
                single(a, b[x]);
            }
        }
    }
    assert forall|j: int| 0 <= j < b.len() implies names.contains((#[trigger] b[j]).0) by {
        let i = a.index_of(b[j]);
        assert(a.contains(b[j]));
        assert(names.contains(a[i].0));
    }
    assert forall|i: int| 0 <= i < names.len() implies names_of(b).contains(#[trigger] names[i]) by {
        assert(gives(a, names[i], v[i]));
        let j = choose|j: int| 0 <= j < a.len() && #[trigger] a[j] == (names[i], v[i]);
        assert(b.contains(a[j]));
        let l = b.index_of(a[j]);
        assert(names_of(b)[l] == names[i]);
    }
    let w = resolved_v(Budget::Named(b), names, names.len())->Ok_0;
    assert forall|i: int| 0 <= i < names.len() implies v[i] == w[i] by {
        assert(gives(a, names[i], v[i]));
        assert(gives(b, names[i], w[i]));
        let j = choose|j: int| 0 <= j < a.len() && #[trigger] a[j] == (names[i], v[i]);
        let l = choose|l: int| 0 <= l < b.len() && #[trigger] b[l] == (names[i], w[i]);
        assert(a.contains(b[l]));
        let m = a.index_of(b[l]);
        assert(names_of(a)[m] == names_of(a)[j]);
        assert(m == j);
    }
    assert(v =~= w);
}

/// What stands at two places counts twice.
proof fn repeated<T>(s: Seq<T>, x: int, y: int)
    requires
        0 <= x < y < s.len(),
        s[x] == s[y],
    ensures
        s.to_multiset().count(s[x]) >= 2,
    decreases s.len(),
{
    s.to_multiset_ensures();
    let t = s.drop_last();
    t.to_multiset_ensures();
    assert(t.push(s.last()) =~= s);
    assert(s.to_multiset() =~= t.to_multiset().insert(s.last()));
    if y == s.len() - 1 {
        assert(t[x] == s[x]);
        assert(t.contains(s[x]));
        assert(t.to_multiset().count(s[x]) > 0);
    } else {
        assert(t[x] == s[x] && t[y] == s[y]);
        repeated(t, x, y);
    }
}

/// Where no name stands twice, an entry counts once.
proof fn single<V>(s: Seq<(Seq<char>, Amount<V>)>, e: (Seq<char>, Amount<V>))
    requires
        distinct(names_of(s)),
    ensures
        s.to_multiset().count(e) <= 1,
    decreases s.len(),
{
    s.to_multiset_ensures();
    if s.len() > 0 {
        let t = s.drop_last();
        t.to_multiset_ensures();
        assert(t.push(s.last()) =~= s);
        assert(s.to_multiset() =~= t.to_multiset().insert(s.last()));
        assert forall|x: int, y: int| 0 <= x < y < names_of(t).len() implies names_of(t)[x] != names_of(
            t,
        )[y] by {
            assert(names_of(s)[x] == names_of(t)[x] && names_of(s)[y] == names_of(t)[y]);
        }
        single(t, e);
        if e == s.last() && t.to_multiset().count(e) > 0 {
            assert(t.contains(e));
            let i = t.index_of(e);
            assert(names_of(s)[i] == names_of(s)[s.len() - 1]);
        }
    }
}

} // verus!
