//! Cutting texts: what the pieces of a text are, and which numbers they write.

use vstd::prelude::*;
use crate::decimal::{all_digits, digits_joined};
use crate::layout::{digits_back, find_at, find_none, joined_front, lines_shift, without};
use crate::text::{decimal, joined};
use crate::words::{
    digits_v, find_bounds, find_v, indent_v, integer_v, is_digit, is_white, lines_v, natural_v,
    split_once_v, split_v, trim_end_v, trim_start_v, trim_v,
};

verus! {

// ---------------------------------------------------------------------------
// blanks
// ---------------------------------------------------------------------------

/// The white space of Unicode, character by character.
pub proof fn blanks_are_these(c: char)
    ensures
        is_white(c) <==> {
            ||| c == '\t'
            ||| c == '\n'
            ||| c == '\u{b}'
            ||| c == '\u{c}'
            ||| c == '\r'
            ||| c == ' '
            ||| c == '\u{85}'
            ||| c == '\u{a0}'
            ||| c == '\u{1680}'
            ||| c == '\u{2000}'
            ||| c == '\u{2001}'
            ||| c == '\u{2002}'
            ||| c == '\u{2003}'
            ||| c == '\u{2004}'
            ||| c == '\u{2005}'
            ||| c == '\u{2006}'
            ||| c == '\u{2007}'
            ||| c == '\u{2008}'
            ||| c == '\u{2009}'
            ||| c == '\u{200a}'
            ||| c == '\u{2028}'
            ||| c == '\u{2029}'
            ||| c == '\u{202f}'
            ||| c == '\u{205f}'
            ||| c == '\u{3000}'
        },
{
}

proof fn start_trimmed(s: Seq<char>) -> (a: int)
    ensures
        0 <= a <= s.len(),
        trim_start_v(s) == s.skip(a),
        forall|i: int| 0 <= i < a ==> is_white(#[trigger] s[i]),
        a < s.len() ==> !is_white(s[a]),
    decreases s.len(),
{
    if s.len() > 0 && is_white(s[0]) {
        let t = s.skip(1);
        let b = start_trimmed(t);
        assert(t.skip(b) =~= s.skip(b + 1));
        assert forall|i: int| 0 <= i < b + 1 implies is_white(#[trigger] s[i]) by {
            if i > 0 {
                assert(is_white(t[i - 1]));
            }
        }
        b + 1
    } else {
        assert(s.skip(0) =~= s);
        0
    }
}

proof fn end_trimmed(s: Seq<char>) -> (b: int)
    ensures
        0 <= b <= s.len(),
        trim_end_v(s) == s.take(b),
        forall|i: int| b <= i < s.len() ==> is_white(#[trigger] s[i]),
        b > 0 ==> !is_white(s[b - 1]),
    decreases s.len(),
{
    if s.len() > 0 && is_white(s.last()) {
        let t = s.drop_last();
        let b = end_trimmed(t);
        assert(t.take(b) =~= s.take(b));
        assert forall|i: int| b <= i < s.len() implies is_white(#[trigger] s[i]) by {
            if i < t.len() {
                assert(is_white(t[i]));
            }
        }
        b
    } else {
        assert(s.take(s.len() as int) =~= s);
        s.len() as int
    }
}

/// A text is trimmed of the blanks in front and of the blanks behind, of all of
/// them and of nothing else.
pub proof fn trimming_takes_blanks(s: Seq<char>) -> (r: (int, int))
    ensures
        0 <= r.0 <= r.1 <= s.len(),
        trim_v(s) == s.subrange(r.0, r.1),
        forall|i: int| 0 <= i < r.0 ==> is_white(#[trigger] s[i]),
        forall|i: int| r.1 <= i < s.len() ==> is_white(#[trigger] s[i]),
        r.0 < r.1 ==> !is_white(s[r.0]) && !is_white(s[r.1 - 1]),
{
    let a = start_trimmed(s);
    let t = s.skip(a);
    let b = end_trimmed(t);
    assert(t.take(b) =~= s.subrange(a, a + b));
    assert forall|i: int| a + b <= i < s.len() implies is_white(#[trigger] s[i]) by {
        assert(is_white(t[i - a]));
    }
    if b > 0 {
        assert(t[b - 1] == s[a + b - 1]);
    }
    (a, a + b)
}

/// The indentation of a line is the spaces it begins with.
pub proof fn indents_are_spaces(s: Seq<char>)
    ensures
        0 <= indent_v(s, 0) <= s.len(),
        forall|j: int| 0 <= j < indent_v(s, 0) ==> #[trigger] s[j] == ' ',
        indent_v(s, 0) < s.len() ==> s[indent_v(s, 0)] != ' ',
{
    spaces_from(s, 0);
}

proof fn spaces_from(s: Seq<char>, i: int)
    requires
        0 <= i <= s.len(),
    ensures
        i <= indent_v(s, i) <= s.len(),
        forall|j: int| i <= j < indent_v(s, i) ==> #[trigger] s[j] == ' ',
        indent_v(s, i) < s.len() ==> s[indent_v(s, i)] != ' ',
    decreases s.len() - i,
{
    if i < s.len() && s[i] == ' ' {
        spaces_from(s, i + 1);
    }
}

// ---------------------------------------------------------------------------
// pieces
// ---------------------------------------------------------------------------

/// A text cut at a character: the pieces put together again are the text, and
/// the character stands in none of them.
pub proof fn pieces_make_the_text(s: Seq<char>, c: char)
    ensures
        split_v(s, c, 0).len() > 0,
        joined(split_v(s, c, 0), seq![c]) == s,
        forall|i: int| 0 <= i < split_v(s, c, 0).len() ==> without(#[trigger] split_v(s, c, 0)[i], c),
{
    pieces_from(s, c, 0);
    assert(s.skip(0) =~= s);
}

proof fn pieces_from(s: Seq<char>, c: char, i: int)
    requires
        0 <= i <= s.len(),
    ensures
        split_v(s, c, i).len() > 0,
        joined(split_v(s, c, i), seq![c]) == s.skip(i),
        forall|k: int| 0 <= k < split_v(s, c, i).len() ==> without(#[trigger] split_v(s, c, i)[k], c),
    decreases s.len() - i,
{
    find_bounds(s, c, i);
    let j = find_v(s, c, i);
    let ps = split_v(s, c, i);
    if j < s.len() {
        let head = s.subrange(i, j);
        let rest = split_v(s, c, j + 1);
        pieces_from(s, c, j + 1);
        assert(ps == seq![head] + rest);
        assert(ps.skip(1) =~= rest);
        joined_front(ps, seq![c]);
        assert(s.skip(i) =~= head + seq![c] + s.skip(j + 1));
        assert forall|k: int| 0 <= k < ps.len() implies without(#[trigger] ps[k], c) by {
            if k > 0 {
                assert(ps[k] == rest[k - 1]);
            }
        }
    } else {
        assert(ps =~= seq![s.subrange(i, s.len() as int)]);
        assert(s.subrange(i, s.len() as int) =~= s.skip(i));
    }
}

/// A text cut once is cut at the first place of the character, and is not cut
/// exactly where the character is missing.
pub proof fn first_place_cuts(s: Seq<char>, c: char)
    ensures
        match split_once_v(s, c) {
            Some((a, b)) => s == a + seq![c] + b && without(a, c),
            None => without(s, c),
        },
{
    find_bounds(s, c, 0);
    let j = find_v(s, c, 0);
    if j < s.len() {
        assert(s =~= s.take(j) + seq![c] + s.skip(j + 1));
    }
}

/// The lines of a text: a line ends at a line feed, the carriage return before
/// it belongs to neither, what follows is cut in the same way, and a last line
/// without a line feed is a line where there is something in it.
pub proof fn lines_are_cut(l: Seq<char>, rest: Seq<char>)
    requires
        without(l, '\n'),
        l.len() > 0 ==> l.last() != '\r',
    ensures
        lines_v(l + seq!['\n'] + rest, 0) == seq![l] + lines_v(rest, 0),
        lines_v(l + seq!['\r', '\n'] + rest, 0) == seq![l] + lines_v(rest, 0),
        l.len() > 0 ==> lines_v(l, 0) == seq![l],
        l.len() == 0 ==> lines_v(l, 0).len() == 0,
        lines_v(l + seq!['\r'], 0) == seq![l + seq!['\r']],
{
    let n = l.len() as int;
    let a = l + seq!['\n'] + rest;
    assert forall|i: int| 0 <= i < n implies #[trigger] a[i] != '\n' by {
        assert(a[i] == l[i]);
    }
    assert(a[n] == '\n');
    find_at(a, '\n', 0, n);
    assert(a.subrange(0, n) =~= l);
    lines_shift(a, n + 1);
    assert(a.skip(n + 1) =~= rest);
    let b = l + seq!['\r', '\n'] + rest;
    assert forall|i: int| 0 <= i < n + 1 implies #[trigger] b[i] != '\n' by {
        if i < n {
            assert(b[i] == l[i]);
        } else {
            assert(b[i] == '\r');
        }
    }
    assert(b[n + 1] == '\n');
    find_at(b, '\n', 0, n + 1);
    let cut = b.subrange(0, n + 1);
    assert(cut.last() == '\r');
    assert(cut.drop_last() =~= l);
    lines_shift(b, n + 2);
    assert(b.skip(n + 2) =~= rest);
    find_none(l, '\n', 0);
    assert(l.subrange(0, n) =~= l);
    let d = l + seq!['\r'];
    assert forall|i: int| 0 <= i < d.len() implies #[trigger] d[i] != '\n' by {
        if i < n {
            assert(d[i] == l[i]);
        }
    }
    find_none(d, '\n', 0);
    assert(d.subrange(0, d.len() as int) =~= d);
}

// ---------------------------------------------------------------------------
// whole numbers
// ---------------------------------------------------------------------------

/// Zeros in front.
pub open spec fn zeros_before(k: nat, w: Seq<char>) -> Seq<char> {
    Seq::new(k, |i: int| '0') + w
}

proof fn zeros_count_nothing(k: nat, n: nat)
    ensures
        all_digits(zeros_before(k, decimal(n))),
        digits_v(zeros_before(k, decimal(n))) == Some(n),
        zeros_before(k, decimal(n)).len() > 0,
    decreases k,
{
    digits_back(n);
    let w = decimal(n);
    if k == 0 {
        assert(zeros_before(0, w) =~= w);
    } else {
        let j = (k - 1) as nat;
        zeros_count_nothing(j, n);
        let z = seq!['0'];
        assert(zeros_before(k, w) =~= z + zeros_before(j, w));
        assert(all_digits(z));
        digits_joined(z, zeros_before(j, w));
        assert(digits_v(z.drop_last()) == Some(0nat));
        assert(digits_v(z) == Some(0nat));
        let t = crate::digits::ten(zeros_before(j, w).len());
        assert(0 * t == 0) by (nonlinear_arith);
    }
}

/// A whole number is read from its digits, whatever zeros stand in front and
/// whether it has a plus or none, where it is not too large; with a minus it is
/// the negative one, which may be larger by one.
pub proof fn wholes_are_read(n: nat, k: nat, max: nat)
    ensures
        ({
            let w = zeros_before(k, decimal(n));
            &&& natural_v(w, max) == if n <= max {
                Some(n)
            } else {
                None
            }
            &&& natural_v(seq!['+'] + w, max) == natural_v(w, max)
            &&& integer_v(w, max) == if n <= max {
                Some(n as int)
            } else {
                None
            }
            &&& integer_v(seq!['+'] + w, max) == integer_v(w, max)
            &&& integer_v(seq!['-'] + w, max) == if n <= max + 1 {
                Some(-(n as int))
            } else {
                None
            }
        }),
{
    let w = zeros_before(k, decimal(n));
    zeros_count_nothing(k, n);
    assert(is_digit(w[0]));
    assert((seq!['+'] + w).skip(1) =~= w);
    assert((seq!['-'] + w).skip(1) =~= w);
}

/// Nothing but digits is read as a number, one digit at least, behind a sign or
/// none: a minus only where negative numbers are.
pub proof fn only_digits_are_read(s: Seq<char>, max: nat)
    ensures
        natural_v(s, max) is Some ==> {
            let d = if s[0] == '+' {
                s.skip(1)
            } else {
                s
            };
            s.len() > 0 && d.len() > 0 && all_digits(d)
        },
        integer_v(s, max) is Some ==> {
            let d = if s[0] == '+' || s[0] == '-' {
                s.skip(1)
            } else {
                s
            };
            s.len() > 0 && d.len() > 0 && all_digits(d)
        },
{
    digits_only(s);
    digits_only(s.skip(1));
}

proof fn digits_only(s: Seq<char>)
    ensures
        digits_v(s) is Some ==> all_digits(s),
    decreases s.len(),
{
    if s.len() > 0 {
        let t = s.drop_last();
        digits_only(t);
        if digits_v(s) is Some {
            assert forall|i: int| 0 <= i < s.len() implies is_digit(#[trigger] s[i]) by {
                if i < t.len() {
                    assert(is_digit(t[i]));
                }
            }
        }
    }
}

} // verus!
