//! What a command line chooses.

use vstd::prelude::*;
use vstd::string::*;
use crate::args::{args_v, flag_v, history_v, number_given, settings_v, Args, Line, DEFAULT_SEED};
use crate::config::{ablation_of, selection_of, steal_of, Ablation, Selection, Steal};
use crate::frontier::within;
use crate::layout::{find_at, find_none, natural_back, without};
use crate::num::{exact, re, Number};
use crate::reals::times_unit;
use crate::text::decimal;
use crate::words::{has_prefix, natural_v};

verus! {

// ---------------------------------------------------------------------------
// the words of a line
// ---------------------------------------------------------------------------

/// What stands on a command line: a word of its own, or a flag with its value,
/// in one word or in two.
pub enum Item {
    Word(Seq<char>),
    Joined(Seq<char>, Seq<char>),
    Apart(Seq<char>, Seq<char>),
}

/// The words an item is written in.
pub open spec fn item_words(x: Item) -> Seq<Seq<char>> {
    match x {
        Item::Word(w) => seq![w],
        Item::Joined(n, v) => seq![seq!['-', '-'] + n + seq!['='] + v],
        Item::Apart(n, v) => seq![seq!['-', '-'] + n, v],
    }
}

/// An item that can be told from the others: a word does not begin as a flag
/// does, and no name holds the sign that ends it.
pub open spec fn item_sound(x: Item) -> bool {
    match x {
        Item::Word(w) => !(w.len() >= 2 && w[0] == '-' && w[1] == '-'),
        Item::Joined(n, v) => without(n, '='),
        Item::Apart(n, v) => without(n, '='),
    }
}

/// The words of these items, from the item `i` on.
pub open spec fn words_from(items: Seq<Item>, i: int) -> Seq<Seq<char>>
    decreases items.len() - i,
{
    if i >= items.len() {
        Seq::empty()
    } else {
        item_words(items[i]) + words_from(items, i + 1)
    }
}

/// The flags among the first `n` items, in their order.
pub open spec fn flags_of(items: Seq<Item>, n: int) -> Seq<(Seq<char>, Seq<char>)>
    decreases n,
{
    if n <= 0 {
        Seq::empty()
    } else {
        match items[n - 1] {
            Item::Word(w) => flags_of(items, n - 1),
            Item::Joined(f, v) => flags_of(items, n - 1).push((f, v)),
            Item::Apart(f, v) => flags_of(items, n - 1).push((f, v)),
        }
    }
}

/// The words that stand alone among the first `n` items, in their order.
pub open spec fn alone_of(items: Seq<Item>, n: int) -> Seq<Seq<char>>
    decreases n,
{
    if n <= 0 {
        Seq::empty()
    } else {
        match items[n - 1] {
            Item::Word(w) => alone_of(items, n - 1).push(w),
            _ => alone_of(items, n - 1),
        }
    }
}

/// What follows the words of an item.
proof fn after(words: Seq<Seq<char>>, at: int, head: Seq<Seq<char>>, tail: Seq<Seq<char>>)
    requires
        0 <= at <= words.len(),
        words.skip(at) == head + tail,
    ensures
        at + head.len() <= words.len(),
        words.skip((at + head.len()) as int) == tail,
{
    let k = head.len() as int;
    assert(words.skip(at).len() == words.len() - at);
    assert(words.skip(at).skip(k) =~= words.skip(at + k));
    assert((head + tail).skip(k) =~= tail);
}

proof fn line_read(items: Seq<Item>, words: Seq<Seq<char>>, at: int, i: int)
    requires
        0 <= i <= items.len(),
        0 <= at <= words.len(),
        words.skip(at) == words_from(items, i),
        forall|j: int| 0 <= j < items.len() ==> item_sound(#[trigger] items[j]),
    ensures
        args_v(
            words,
            at,
            (Line { positional: alone_of(items, i), flags: flags_of(items, i) }),
        ) == Ok::<Line, Seq<char>>(
            Line {
                positional: alone_of(items, items.len() as int),
                flags: flags_of(items, items.len() as int),
            },
        ),
    decreases items.len() - i,
{
    reveal_strlit("--");
    assert("--"@ =~= seq!['-', '-']);
    if i < items.len() {
        let x = items[i];
        assert(item_sound(x));
        let tail = words_from(items, i + 1);
        after(words, at, item_words(x), tail);
        assert(words.skip(at)[0] == words[at]);
        match x {
            Item::Word(w) => {
                assert(words[at] == w);
                if has_prefix(w, "--"@) {
                    assert(w.take(2)[0] == '-' && w.take(2)[1] == '-');
                }
                line_read(items, words, at + 1, i + 1);
            },
            Item::Joined(n, v) => {
                let w = seq!['-', '-'] + n + seq!['='] + v;
                assert(words[at] == w);
                assert(w.take(2) =~= "--"@);
                let rest = n + seq!['='] + v;
                assert(w.skip(2) =~= rest);
                find_at(rest, '=', 0, n.len() as int);
                assert(rest.take(n.len() as int) =~= n);
                assert(rest.skip(n.len() as int + 1) =~= v);
                line_read(items, words, at + 1, i + 1);
            },
            Item::Apart(n, v) => {
                let w = seq!['-', '-'] + n;
                assert(words.skip(at)[1] == words[at + 1]);
                assert(words[at] == w && words[at + 1] == v);
                assert(w.take(2) =~= "--"@);
                assert(w.skip(2) =~= n);
                find_none(n, '=', 0);
                line_read(items, words, at + 2, i + 1);
            },
        }
    } else {
        assert(words.skip(at).len() == 0);
    }
}

/// A command line is read as it was written: every flag with its value, whether
/// in one word or in two, and every other word, each in their order.
pub proof fn lines_are_read(items: Seq<Item>)
    requires
        forall|j: int| 0 <= j < items.len() ==> item_sound(#[trigger] items[j]),
    ensures
        args_v(
            words_from(items, 0),
            0,
            (Line { positional: Seq::empty(), flags: Seq::empty() }),
        ) == Ok::<Line, Seq<char>>(
            Line {
                positional: alone_of(items, items.len() as int),
                flags: flags_of(items, items.len() as int),
            },
        ),
{
    let words = words_from(items, 0);
    assert(words.skip(0) =~= words);
    line_read(items, words, 0, 0);
}

/// The value of a flag is that of the first time it is given, and there is none
/// exactly where it is not.
pub proof fn first_flag_counts(flags: Seq<(Seq<char>, Seq<char>)>, name: Seq<char>, i: int)
    requires
        0 <= i <= flags.len(),
    ensures
        match flag_v(flags, name, i) {
            Some(v) => exists|j: int|
                {
                    &&& i <= j < flags.len()
                    &&& #[trigger] flags[j] == (name, v)
                    &&& forall|l: int| i <= l < j ==> (#[trigger] flags[l]).0 != name
                },
            None => forall|j: int| i <= j < flags.len() ==> (#[trigger] flags[j]).0 != name,
        },
    decreases flags.len() - i,
{
    if i < flags.len() {
        if flags[i].0 == name {
            assert(flags[i] == (name, flags[i].1));
        } else {
            first_flag_counts(flags, name, i + 1);
            if flag_v(flags, name, i + 1) is Some {
                let v = flag_v(flags, name, i + 1)->0;
                let j = choose|j: int|
                    {
                        &&& i + 1 <= j < flags.len()
                        &&& #[trigger] flags[j] == (name, v)
                        &&& forall|l: int| i + 1 <= l < j ==> (#[trigger] flags[l]).0 != name
                    };
                assert(flags[j] == (name, v));
            }
        }
    }
}

// ---------------------------------------------------------------------------
// the settings
// ---------------------------------------------------------------------------

proof fn settings_apart()
    ensures
        "ring"@ != "any"@,
        "both"@ != "accept"@,
        "both"@ != "reject"@,
        "both"@ != "none"@,
        "accept"@ != "reject"@,
        "accept"@ != "none"@,
        "reject"@ != "none"@,
        "weighted"@ != "uniform"@,
        "weighted"@ != "oldest"@,
        "uniform"@ != "oldest"@,
        "true"@ != "false"@,
{
    reveal_strlit("ring");
    reveal_strlit("any");
    reveal_strlit("both");
    reveal_strlit("accept");
    reveal_strlit("reject");
    reveal_strlit("none");
    reveal_strlit("weighted");
    reveal_strlit("uniform");
    reveal_strlit("oldest");
    reveal_strlit("true");
    reveal_strlit("false");
    assert("ring"@[0] == 'r' && "any"@[0] == 'a');
    assert("both"@[0] == 'b' && "accept"@[0] == 'a' && "reject"@[0] == 'r' && "none"@[0] == 'n');
    assert("weighted"@[0] == 'w' && "uniform"@[0] == 'u' && "oldest"@[0] == 'o');
    assert("true"@[0] == 't' && "false"@[0] == 'f');
}

/// The words of the settings: each names one setting, and nothing else names
/// any.
pub proof fn words_name_settings(s: Seq<char>)
    ensures
        s == "ring"@ <==> steal_of(s) == Some(Steal::Ring),
        s == "any"@ <==> steal_of(s) == Some(Steal::Any),
        s == "both"@ <==> ablation_of(s) == Some(Ablation::Both),
        s == "accept"@ <==> ablation_of(s) == Some(Ablation::AcceptOnly),
        s == "reject"@ <==> ablation_of(s) == Some(Ablation::RejectOnly),
        s == "none"@ <==> ablation_of(s) == Some(Ablation::Neither),
        s == "weighted"@ <==> selection_of(s) == Some(Selection::Weighted),
        s == "uniform"@ <==> selection_of(s) == Some(Selection::Uniform),
        s == "oldest"@ <==> selection_of(s) == Some(Selection::Oldest),
        s == "true"@ <==> history_v(Some(s)) == Ok::<bool, Seq<char>>(true),
        s == "false"@ <==> history_v(Some(s)) == Ok::<bool, Seq<char>>(false),
        history_v(None) == Ok::<bool, Seq<char>>(true),
{
    settings_apart();
}

/// Accepting early and rejecting early are the two tests a setting may leave
/// out.
pub proof fn tests_are_left_out(a: Ablation)
    ensures
        a.accepts() <==> a == Ablation::Both || a == Ablation::AcceptOnly,
        a.rejects() <==> a == Ablation::Both || a == Ablation::RejectOnly,
{
}

/// Every setting is what its own flag gives, and what it is by default where the
/// flag is not given; the budget and the time are handed on. A search is refused
/// exactly where a word names no setting or a number cannot be read.
pub proof fn flags_choose<N: Number>(a: Args, threshold: Seq<N::Value>, timeout: Option<u128>)
    ensures
        match settings_v::<N>(a, threshold, timeout) {
            Ok(s) => {
                &&& s.threshold == threshold
                &&& s.timeout == timeout
                &&& s.record_strategy <==> a.given("print-strategy"@) is Some || a.given(
                    "print-size"@,
                ) is Some
                &&& match a.given("steal"@) {
                    None => s.steal == Steal::Ring,
                    Some(w) => steal_of(w) == Some(s.steal),
                }
                &&& match a.given("ablation"@) {
                    None => s.ablation == Ablation::Both,
                    Some(w) => ablation_of(w) == Some(s.ablation),
                }
                &&& match a.given("selection"@) {
                    None => s.selection == Selection::Weighted,
                    Some(w) => selection_of(w) == Some(s.selection),
                }
                &&& match a.given("epsilon"@) {
                    None => s.epsilon == N::zero_v(),
                    Some(w) => N::read_v(w) == Some(s.epsilon),
                }
                &&& match a.given("workers"@) {
                    None => s.workers == 1,
                    Some(w) => natural_v(w, usize::MAX as nat) == Some(s.workers),
                }
                &&& match a.given("seed"@) {
                    None => s.seed == 20260816,
                    Some(w) => natural_v(w, u64::MAX as nat) == Some(s.seed),
                }
            },
            Err(_) => {
                ||| a.given("steal"@) matches Some(w) && steal_of(w) is None
                ||| a.given("ablation"@) matches Some(w) && ablation_of(w) is None
                ||| a.given("selection"@) matches Some(w) && selection_of(w) is None
                ||| a.given("epsilon"@) matches Some(w) && N::read_v(w) is None
                ||| a.given("workers"@) matches Some(w) && natural_v(w, usize::MAX as nat) is None
                ||| a.given("seed"@) matches Some(w) && natural_v(w, u64::MAX as nat) is None
            },
        },
{
    assert(DEFAULT_SEED == 20260816);
}

/// A number on the line is the number it writes, where it is not too large, and
/// the default where there is none.
pub proof fn numbers_are_given(n: nat, max: nat, default: nat)
    ensures
        n <= max ==> number_given(Some(decimal(n)), max, default) == Some(n),
        number_given(None, max, default) == Some(default),
{
    if n <= max {
        natural_back(n, max);
    }
}

// ---------------------------------------------------------------------------
// the comparison with the budget
// ---------------------------------------------------------------------------

/// What a component of the budget allows, with its slack: the component itself,
/// and the slack times its size or times one, whichever is larger.
pub open spec fn allowed<N: Number>(b: Seq<N::Value>, slack: N::Value, c: int) -> real {
    let (x, e) = (re::<N>(b, c), N::real_of(slack));
    let size = if x >= 0 as real {
        x
    } else {
        0 as real - x
    };
    x + e * if size >= 1 as real {
        size
    } else {
        1 as real
    }
}

/// A vector is within the budget exactly where no component exceeds what the
/// budget allows it; without a slack that is the budget itself.
pub proof fn slack_is_allowed<N: Number>(a: Seq<N::Value>, b: Seq<N::Value>, slack: N::Value)
    requires
        exact::<N>(),
        a.len() == b.len(),
    ensures
        within::<N>(a, b, slack) <==> forall|c: int|
            0 <= c < a.len() ==> #[trigger] re::<N>(a, c) <= allowed::<N>(b, slack, c),
        N::real_of(slack) == 0 as real ==> forall|c: int|
            0 <= c < a.len() ==> #[trigger] allowed::<N>(b, slack, c) == re::<N>(b, c),
{
    let e = N::real_of(slack);
    let tight = N::le_v(slack, N::zero_v()) && N::le_v(N::zero_v(), slack);
    assert(tight <==> e == 0 as real);
    assert forall|c: int| 0 <= c < a.len() implies (if tight {
        N::le_v(#[trigger] a[c], b[c])
    } else {
        N::le_v(a[c], N::plus_v(b[c], N::times_v(slack, N::max_v(N::abs_v(b[c]), N::one_v()))))
    }) == (re::<N>(a, c) <= allowed::<N>(b, slack, c)) by {
        let size = N::max_v(N::abs_v(b[c]), N::one_v());
        times_unit(N::real_of(size));
        let x = re::<N>(b, c);
        let s = if x >= 0 as real {
            x
        } else {
            0 as real - x
        };
        times_unit(s);
        times_unit(1 as real);
        assert(N::real_of(N::abs_v(b[c])) == s);
    }
    if within::<N>(a, b, slack) {
        assert forall|c: int| 0 <= c < a.len() implies #[trigger] re::<N>(a, c) <= allowed::<N>(
            b,
            slack,
            c,
        ) by {
            let x = a[c];
        }
    }
    if forall|c: int| 0 <= c < a.len() ==> #[trigger] re::<N>(a, c) <= allowed::<N>(b, slack, c) {
        assert forall|c: int| 0 <= c < a.len() && c < b.len() implies (if tight {
            N::le_v(#[trigger] a[c], b[c])
        } else {
            N::le_v(a[c], N::plus_v(b[c], N::times_v(slack, N::max_v(N::abs_v(b[c]), N::one_v()))))
        }) by {
            assert(re::<N>(a, c) <= allowed::<N>(b, slack, c));
        }
    }
    if e == 0 as real {
        assert forall|c: int| 0 <= c < a.len() implies #[trigger] allowed::<N>(b, slack, c) == re::<N>(
            b,
            c,
        ) by {
            let x = re::<N>(b, c);
            times_unit(x);
            times_unit(0 as real - x);
            times_unit(1 as real);
        }
    }
}

} // verus!
