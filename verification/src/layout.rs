//! What a reader makes of a written text: lines, words, lists and numbers come
//! apart where they were put together.

use vstd::prelude::*;
use crate::text::{decimal, digit, joined, signed};
use crate::words::{
    digits_v, find_bounds, find_v, indent_v, integer_v, is_digit, is_white, lines_v, natural_v,
    split_once_v, split_v, trim_end_v, trim_start_v, trim_v, without_return,
};
use crate::writer::{unlines, unlines_more};

verus! {

/// No white space at either end.
pub open spec fn tidy(s: Seq<char>) -> bool {
    s.len() > 0 && !is_white(s[0]) && !is_white(s.last())
}

/// A character does not occur.
pub open spec fn without(s: Seq<char>, c: char) -> bool {
    forall|i: int| 0 <= i < s.len() ==> #[trigger] s[i] != c
}

/// No white space anywhere, and something there.
pub open spec fn solid(s: Seq<char>) -> bool {
    s.len() > 0 && forall|i: int| 0 <= i < s.len() ==> !is_white(#[trigger] s[i])
}

/// A line that a reader finds as it was written.
pub open spec fn clean_line(s: Seq<char>) -> bool {
    without(s, '\n') && without(s, '\r')
}

pub proof fn find_at(s: Seq<char>, c: char, i: int, j: int)
    requires
        0 <= i <= j < s.len(),
        s[j] == c,
        forall|l: int| i <= l < j ==> #[trigger] s[l] != c,
    ensures
        find_v(s, c, i) == j,
    decreases j - i,
{
    if i < j {
        assert(s[i] != c);
        find_at(s, c, i + 1, j);
    }
}

pub proof fn find_none(s: Seq<char>, c: char, i: int)
    requires
        0 <= i <= s.len(),
        forall|l: int| i <= l < s.len() ==> #[trigger] s[l] != c,
    ensures
        find_v(s, c, i) == s.len(),
    decreases s.len() - i,
{
    if i < s.len() {
        assert(s[i] != c);
        find_none(s, c, i + 1);
    }
}

proof fn find_shift(s: Seq<char>, c: char, i: int, j: int)
    requires
        0 <= i <= j <= s.len(),
    ensures
        find_v(s, c, j) == i + find_v(s.skip(i), c, j - i),
    decreases s.len() - j,
{
    if j < s.len() && s[j] != c {
        assert(s.skip(i)[j - i] == s[j]);
        find_shift(s, c, i, j + 1);
    } else if j < s.len() {
        assert(s.skip(i)[j - i] == s[j]);
    }
}

/// A tidy text is trimmed already, with a space in front or without.
pub proof fn trim_tidy(s: Seq<char>)
    requires
        tidy(s),
    ensures
        trim_v(s) == s,
        trim_v(seq![' '] + s) == s,
{
    let t = seq![' '] + s;
    assert(t[0] == ' ');
    assert(t.skip(1) =~= s);
    assert(trim_start_v(t) == trim_start_v(s));
}

pub proof fn trim_empty()
    ensures
        trim_v(Seq::empty()) == Seq::<char>::empty(),
{
}

/// A text in which something is not white space does not trim to nothing.
pub proof fn trim_leaves(s: Seq<char>, i: int)
    requires
        0 <= i < s.len(),
        !is_white(s[i]),
    ensures
        trim_v(s).len() > 0,
    decreases s.len(),
{
    start_leaves(s, i);
    let t = trim_start_v(s);
    let j = choose|j: int| 0 <= j < t.len() && !is_white(#[trigger] t[j]);
    end_leaves(t, j);
}

proof fn start_leaves(s: Seq<char>, i: int)
    requires
        0 <= i < s.len(),
        !is_white(s[i]),
    ensures
        exists|j: int| 0 <= j < trim_start_v(s).len() && !is_white(#[trigger] trim_start_v(s)[j]),
    decreases s.len(),
{
    if is_white(s[0]) {
        assert(s.skip(1)[i - 1] == s[i]);
        start_leaves(s.skip(1), i - 1);
        let t = trim_start_v(s.skip(1));
        assert(trim_start_v(s) == t);
        let j = choose|j: int| 0 <= j < t.len() && !is_white(#[trigger] t[j]);
        assert(!is_white(trim_start_v(s)[j]));
    } else {
        assert(!is_white(trim_start_v(s)[i]));
    }
}

proof fn end_leaves(s: Seq<char>, i: int)
    requires
        0 <= i < s.len(),
        !is_white(s[i]),
    ensures
        trim_end_v(s).len() > 0,
    decreases s.len(),
{
    if is_white(s.last()) {
        assert(s.drop_last()[i] == s[i]);
        end_leaves(s.drop_last(), i);
    }
}

/// A key, a colon and what follows it.
pub proof fn split_key(key: Seq<char>, rest: Seq<char>)
    requires
        without(key, ':'),
    ensures
        split_once_v(key + seq![':'] + rest, ':') == Some((key, rest)),
{
    let s = key + seq![':'] + rest;
    find_at(s, ':', 0, key.len() as int);
    assert(s.take(key.len() as int) =~= key);
    assert(s.skip((key.len() + 1) as int) =~= rest);
}

/// The spaces a line begins with.
pub proof fn indent_is(s: Seq<char>, i: int, n: int)
    requires
        0 <= i <= n < s.len(),
        forall|l: int| 0 <= l < n ==> #[trigger] s[l] == ' ',
        s[n] != ' ',
    ensures
        indent_v(s, i) == n,
    decreases n - i,
{
    if i < n {
        assert(s[i] == ' ');
        indent_is(s, i + 1, n);
    }
}

// ---------------------------------------------------------------------------
// lines
// ---------------------------------------------------------------------------

pub proof fn lines_shift(s: Seq<char>, i: int)
    requires
        0 <= i <= s.len(),
    ensures
        lines_v(s, i) == lines_v(s.skip(i), 0),
    decreases s.len() - i,
{
    let t = s.skip(i);
    find_bounds(s, '\n', i);
    find_bounds(t, '\n', 0);
    find_shift(s, '\n', i, i);
    let j = find_v(s, '\n', i);
    if i < s.len() {
        if j < s.len() {
            lines_shift(s, j + 1);
            lines_shift(t, j + 1 - i);
            assert(t.skip(j + 1 - i) =~= s.skip(j + 1));
            assert(t.subrange(0, j - i) =~= s.subrange(i, j));
        } else {
            assert(t.subrange(0, j - i) =~= s.subrange(i, j));
        }
    }
}

proof fn unlines_front(ls: Seq<Seq<char>>)
    requires
        ls.len() > 0,
    ensures
        unlines(ls) == ls[0] + seq!['\n'] + unlines(ls.skip(1)),
{
    let one = seq![ls[0]];
    assert(ls =~= one + ls.skip(1));
    unlines_more(one, ls.skip(1));
    assert(one.drop_last() =~= Seq::<Seq<char>>::empty());
    assert(unlines(one.drop_last()) =~= Seq::<char>::empty());
    reveal_strlit("\n");
    assert(one.last() == ls[0]);
    assert("\n"@ =~= seq!['\n']);
    assert(unlines(one) =~= ls[0] + seq!['\n']);
}

/// Lines come apart where they were put together.
pub proof fn lines_back(ls: Seq<Seq<char>>)
    requires
        forall|i: int| 0 <= i < ls.len() ==> clean_line(#[trigger] ls[i]),
    ensures
        lines_v(unlines(ls), 0) == ls,
    decreases ls.len(),
{
    let s = unlines(ls);
    if ls.len() == 0 {
        assert(lines_v(s, 0) =~= ls);
    } else {
        unlines_front(ls);
        let head = ls[0];
        let rest = unlines(ls.skip(1));
        let n = head.len() as int;
        assert(clean_line(ls[0]));
        assert forall|l: int| 0 <= l < n implies #[trigger] s[l] != '\n' by {
            assert(s[l] == head[l]);
        }
        find_at(s, '\n', 0, n);
        assert(s.subrange(0, n) =~= head);
        if n > 0 {
            assert(head[n - 1] != '\r');
        }
        assert(without_return(head) == head);
        lines_shift(s, n + 1);
        assert(s.skip(n + 1) =~= rest);
        assert forall|i: int| 0 <= i < ls.skip(1).len() implies clean_line(#[trigger] ls.skip(1)[i]) by {
            assert(clean_line(ls[i + 1]));
        }
        lines_back(ls.skip(1));
        assert(seq![head] + ls.skip(1) =~= ls);
    }
}

// ---------------------------------------------------------------------------
// lists
// ---------------------------------------------------------------------------

proof fn split_shift(s: Seq<char>, c: char, i: int)
    requires
        0 <= i <= s.len(),
    ensures
        split_v(s, c, i) == split_v(s.skip(i), c, 0),
    decreases s.len() - i,
{
    let t = s.skip(i);
    find_bounds(s, c, i);
    find_bounds(t, c, 0);
    find_shift(s, c, i, i);
    let j = find_v(s, c, i);
    if j < s.len() {
        split_shift(s, c, j + 1);
        split_shift(t, c, j + 1 - i);
        assert(t.skip(j + 1 - i) =~= s.skip(j + 1));
        assert(t.subrange(0, j - i) =~= s.subrange(i, j));
    } else {
        assert(t.subrange(0, t.len() as int) =~= s.subrange(i, s.len() as int));
    }
}

pub proof fn joined_front(ps: Seq<Seq<char>>, sep: Seq<char>)
    requires
        ps.len() >= 2,
    ensures
        joined(ps, sep) == ps[0] + sep + joined(ps.skip(1), sep),
    decreases ps.len(),
{
    let tail = ps.skip(1);
    if ps.len() == 2 {
        assert(ps.drop_last() =~= seq![ps[0]]);
        assert(joined(ps.drop_last(), sep) == ps[0]);
        assert(joined(tail, sep) == ps[1]);
        assert(joined(ps, sep) =~= ps[0] + sep + joined(tail, sep));
    } else {
        joined_front(ps.drop_last(), sep);
        assert(ps.drop_last().skip(1) =~= tail.drop_last());
        assert(ps.drop_last()[0] == ps[0]);
        assert(tail.last() == ps.last());
        assert(joined(ps, sep) =~= ps[0] + sep + joined(tail, sep));
    }
}

/// The pieces of a list, each with the blank before it.
spec fn listed(lead: Seq<char>, ps: Seq<Seq<char>>) -> Seq<Seq<char>> {
    Seq::new(
        ps.len(),
        |i: int|
            if i == 0 {
                lead + ps[0]
            } else {
                seq![' '] + ps[i]
            },
    )
}

pub proof fn without_both(a: Seq<char>, b: Seq<char>, c: char)
    requires
        without(a, c),
        without(b, c),
    ensures
        without(a + b, c),
{
    let s = a + b;
    assert forall|l: int| 0 <= l < s.len() implies #[trigger] s[l] != c by {
        if l < a.len() {
            assert(s[l] == a[l]);
        } else {
            assert(s[l] == b[l - a.len()]);
        }
    }
}

proof fn listed_front(lead: Seq<char>, ps: Seq<Seq<char>>)
    requires
        ps.len() >= 2,
    ensures
        seq![lead + ps[0]] + listed(seq![' '], ps.skip(1)) == listed(lead, ps),
{
    let tail = ps.skip(1);
    let s = seq![lead + ps[0]] + listed(seq![' '], tail);
    assert forall|i: int| 0 <= i < ps.len() implies s[i] == listed(lead, ps)[i] by {
        if i >= 1 {
            assert(s[i] == listed(seq![' '], tail)[i - 1]);
            assert(tail[i - 1] == ps[i]);
            assert(tail[0] == ps[1]);
        }
    }
    assert(s =~= listed(lead, ps));
}

#[verifier::rlimit(30)]
proof fn split_joined(lead: Seq<char>, ps: Seq<Seq<char>>)
    requires
        ps.len() >= 1,
        without(lead, ','),
        forall|i: int| 0 <= i < ps.len() ==> without(#[trigger] ps[i], ','),
    ensures
        split_v(lead + joined(ps, seq![',', ' ']), ',', 0) == listed(lead, ps),
    decreases ps.len(),
{
    let sep = seq![',', ' '];
    let s = lead + joined(ps, sep);
    let head = lead + ps[0];
    assert(without(ps[0], ','));
    without_both(lead, ps[0], ',');
    if ps.len() == 1 {
        assert(s =~= head);
        find_none(s, ',', 0);
        assert(s.subrange(0, s.len() as int) =~= s);
        assert(split_v(s, ',', 0) =~= listed(lead, ps));
    } else {
        joined_front(ps, sep);
        let tail = ps.skip(1);
        let rest = seq![' '] + joined(tail, sep);
        assert(s =~= head + seq![','] + rest);
        let n = head.len() as int;
        assert forall|l: int| 0 <= l < n implies #[trigger] s[l] != ',' by {
            assert(s[l] == head[l]);
        }
        find_at(s, ',', 0, n);
        split_shift(s, ',', n + 1);
        assert(s.skip(n + 1) =~= rest);
        assert(s.subrange(0, n) =~= head);
        assert forall|i: int| 0 <= i < tail.len() implies without(#[trigger] tail[i], ',') by {
            assert(without(ps[i + 1], ','));
        }
        split_joined(seq![' '], tail);
        listed_front(lead, ps);
    }
}

/// A list comes apart where it was put together: as many pieces, each of them
/// trimming to what was put in.
pub proof fn list_back(ps: Seq<Seq<char>>)
    requires
        ps.len() >= 1,
        forall|i: int|
            0 <= i < ps.len() ==> without(#[trigger] ps[i], ',') && tidy(ps[i]),
    ensures
        ({
            let cut = split_v(joined(ps, seq![',', ' ']), ',', 0);
            &&& cut.len() == ps.len()
            &&& forall|i: int| 0 <= i < ps.len() ==> trim_v(#[trigger] cut[i]) == ps[i]
        }),
{
    let none = Seq::<char>::empty();
    split_joined(none, ps);
    assert(none + joined(ps, seq![',', ' ']) =~= joined(ps, seq![',', ' ']));
    let cut = listed(none, ps);
    assert forall|i: int| 0 <= i < ps.len() implies trim_v(#[trigger] cut[i]) == ps[i] by {
        assert(tidy(ps[i]));
        trim_tidy(ps[i]);
        if i == 0 {
            assert(none + ps[0] =~= ps[0]);
        }
    }
}

/// A list comes apart into what was put in, each piece after the first with the
/// blank before it.
pub proof fn list_pieces(ps: Seq<Seq<char>>)
    requires
        ps.len() >= 1,
        forall|i: int| 0 <= i < ps.len() ==> without(#[trigger] ps[i], ','),
    ensures
        ({
            let cut = split_v(joined(ps, seq![',', ' ']), ',', 0);
            &&& cut.len() == ps.len()
            &&& cut[0] == ps[0]
            &&& forall|i: int| 1 <= i < ps.len() ==> #[trigger] cut[i] == seq![' '] + ps[i]
        }),
{
    let none = Seq::<char>::empty();
    split_joined(none, ps);
    assert(none + joined(ps, seq![',', ' ']) =~= joined(ps, seq![',', ' ']));
    assert(none + ps[0] =~= ps[0]);
}

/// What ends a list that was put together, and what begins it.
pub proof fn joined_ends(ps: Seq<Seq<char>>, sep: Seq<char>)
    requires
        ps.len() >= 1,
        forall|i: int| 0 <= i < ps.len() ==> (#[trigger] ps[i]).len() > 0,
    ensures
        joined(ps, sep).len() > 0,
        joined(ps, sep)[0] == ps[0][0],
        joined(ps, sep).last() == ps.last().last(),
    decreases ps.len(),
{
    assert(ps[0].len() > 0);
    assert(ps[ps.len() - 1].len() > 0);
    if ps.len() > 1 {
        let front = ps.drop_last();
        assert forall|i: int| 0 <= i < front.len() implies (#[trigger] front[i]).len() > 0 by {
            assert(ps[i].len() > 0);
        }
        joined_ends(front, sep);
    }
}

/// A character that no piece and no separator holds is not in the list.
pub proof fn joined_without(ps: Seq<Seq<char>>, sep: Seq<char>, c: char)
    requires
        without(sep, c),
        forall|i: int| 0 <= i < ps.len() ==> without(#[trigger] ps[i], c),
    ensures
        without(joined(ps, sep), c),
    decreases ps.len(),
{
    if ps.len() == 1 {
        assert(without(ps[0], c));
    } else if ps.len() > 1 {
        let front = ps.drop_last();
        assert forall|i: int| 0 <= i < front.len() implies without(#[trigger] front[i], c) by {
            assert(without(ps[i], c));
        }
        joined_without(front, sep, c);
        assert(without(ps[ps.len() - 1], c));
    }
}

// ---------------------------------------------------------------------------
// numbers
// ---------------------------------------------------------------------------

/// A number in decimal reads back.
pub proof fn digits_back(n: nat)
    ensures
        digits_v(decimal(n)) == Some(n),
        decimal(n).len() > 0,
        forall|i: int| 0 <= i < decimal(n).len() ==> is_digit(#[trigger] decimal(n)[i]),
    decreases n,
{
    if n < 10 {
        let s = seq![digit(n as int)];
        assert(s.drop_last() =~= Seq::empty());
        assert(digits_v(s.drop_last()) == Some(0nat));
        assert(s.last() == digit(n as int));
    } else {
        digits_back(n / 10);
        let s = decimal(n);
        assert(s.drop_last() =~= decimal(n / 10));
        assert(s.last() == digit((n % 10) as int));
    }
}

/// A number in decimal is solid and reads back, where it is no larger than `max`.
pub proof fn natural_back(n: nat, max: nat)
    requires
        n <= max,
    ensures
        natural_v(decimal(n), max) == Some(n),
        solid(decimal(n)),
        tidy(decimal(n)),
        clean_line(decimal(n)),
        without(decimal(n), ','),
{
    digits_back(n);
    let s = decimal(n);
    assert(is_digit(s[0]));
    assert forall|i: int| 0 <= i < s.len() implies !is_white(#[trigger] s[i]) && s[i] != '\n' && s[i]
        != '\r' && s[i] != ',' by {
        assert(is_digit(s[i]));
    }
}

/// A positive number with its sign reads back.
pub proof fn integer_back(n: int, max: nat)
    requires
        0 <= n <= max,
    ensures
        integer_v(signed(n), max) == Some(n),
        solid(signed(n)),
        tidy(signed(n)),
        clean_line(signed(n)),
{
    natural_back(n as nat, max);
    digits_back(n as nat);
    assert(is_digit(decimal(n as nat)[0]));
}

} // verus!
