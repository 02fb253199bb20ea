//! Lines, words and integers.

use vstd::prelude::*;
use vstd::slice::slice_subrange;
use crate::text::same_chars;

verus! {

/// The characters of the Unicode property `White_Space`.
pub open spec fn is_white(c: char) -> bool {
    ||| 0x09 <= c as u32 <= 0x0d
    ||| c as u32 == 0x20
    ||| c as u32 == 0x85
    ||| c as u32 == 0xa0
    ||| c as u32 == 0x1680
    ||| 0x2000 <= c as u32 <= 0x200a
    ||| c as u32 == 0x2028
    ||| c as u32 == 0x2029
    ||| c as u32 == 0x202f
    ||| c as u32 == 0x205f
    ||| c as u32 == 0x3000
}

pub fn white(c: char) -> (r: bool)
    ensures
        r == is_white(c),
{
    let x = c as u32;
    (0x09 <= x && x <= 0x0d) || x == 0x20 || x == 0x85 || x == 0xa0 || x == 0x1680 || (0x2000 <= x
        && x <= 0x200a) || x == 0x2028 || x == 0x2029 || x == 0x202f || x == 0x205f || x == 0x3000
}

/// The text without the white space it begins with.
pub open spec fn trim_start_v(s: Seq<char>) -> Seq<char>
    decreases s.len(),
{
    if s.len() > 0 && is_white(s[0]) {
        trim_start_v(s.skip(1))
    } else {
        s
    }
}

/// The text without the white space it ends with.
pub open spec fn trim_end_v(s: Seq<char>) -> Seq<char>
    decreases s.len(),
{
    if s.len() > 0 && is_white(s.last()) {
        trim_end_v(s.drop_last())
    } else {
        s
    }
}

/// The text without the white space around it.
pub open spec fn trim_v(s: Seq<char>) -> Seq<char> {
    trim_end_v(trim_start_v(s))
}

/// The text without the white space around it.
pub fn trim(s: &[char]) -> (r: &[char])
    ensures
        r@ == trim_v(s@),
{
    let n = s.len();
    let mut a: usize = 0;
    assert(s@.skip(0) =~= s@);
    while a < n && white(s[a])
        invariant
            n == s@.len(),
            a <= n,
            trim_start_v(s@) == trim_start_v(s@.skip(a as int)),
        decreases n - a,
    {
        assert(s@.skip(a as int).skip(1) =~= s@.skip(a + 1));
        a = a + 1;
    }
    let ghost t = s@.skip(a as int);
    assert(trim_start_v(s@) == t);
    let mut b: usize = n;
    assert(s@.subrange(a as int, n as int) =~= t);
    while b > a && white(s[b - 1])
        invariant
            n == s@.len(),
            a <= b <= n,
            trim_end_v(t) == trim_end_v(s@.subrange(a as int, b as int)),
        decreases b,
    {
        let ghost u = s@.subrange(a as int, b as int);
        assert(u.last() == s@[b - 1]);
        assert(u.drop_last() =~= s@.subrange(a as int, b - 1));
        b = b - 1;
    }
    proof {
        let u = s@.subrange(a as int, b as int);
        if b > a {
            assert(u.last() == s@[b - 1]);
        }
    }
    slice_subrange(s, a, b)
}

/// The first place of a character, from `i` on, or the end.
pub open spec fn find_v(s: Seq<char>, c: char, i: int) -> int
    decreases s.len() - i,
{
    if i >= s.len() || s[i] == c {
        i
    } else {
        find_v(s, c, i + 1)
    }
}

pub proof fn find_bounds(s: Seq<char>, c: char, i: int)
    requires
        0 <= i <= s.len(),
    ensures
        i <= find_v(s, c, i) <= s.len(),
        find_v(s, c, i) < s.len() ==> s[find_v(s, c, i)] == c,
        forall|j: int| i <= j < find_v(s, c, i) ==> s[j] != c,
    decreases s.len() - i,
{
    if i < s.len() && s[i] != c {
        find_bounds(s, c, i + 1);
    }
}

/// The first place of a character, from `i` on, or the end.
pub fn find(s: &[char], c: char, i: usize) -> (r: usize)
    requires
        i <= s@.len(),
    ensures
        r == find_v(s@, c, i as int),
        i <= r <= s@.len(),
        r < s@.len() ==> s@[r as int] == c,
{
    let mut j = i;
    while j < s.len() && s[j] != c
        invariant
            i <= j <= s@.len(),
            find_v(s@, c, i as int) == find_v(s@, c, j as int),
        decreases s@.len() - j,
    {
        j = j + 1;
    }
    j
}

/// What stands before and after the first place of a character.
pub open spec fn split_once_v(s: Seq<char>, c: char) -> Option<(Seq<char>, Seq<char>)> {
    let j = find_v(s, c, 0);
    if j < s.len() {
        Some((s.take(j), s.skip(j + 1)))
    } else {
        None
    }
}

/// What stands before and after the first place of a character.
pub fn split_once(s: &[char], c: char) -> (r: Option<(&[char], &[char])>)
    ensures
        match r {
            Some((a, b)) => split_once_v(s@, c) == Some((a@, b@)),
            None => split_once_v(s@, c) is None,
        },
{
    let j = find(s, c, 0);
    if j < s.len() {
        let a = slice_subrange(s, 0, j);
        let b = slice_subrange(s, j + 1, s.len());
        assert(a@ =~= s@.take(j as int));
        assert(b@ =~= s@.skip(j + 1));
        Some((a, b))
    } else {
        None
    }
}

/// The pieces between the places of a character, from `i` on.
pub open spec fn split_v(s: Seq<char>, c: char, i: int) -> Seq<Seq<char>>
    decreases s.len() - i,
    when 0 <= i <= s.len()
    via split_decreases
{
    let j = find_v(s, c, i);
    if j < s.len() {
        seq![s.subrange(i, j)] + split_v(s, c, j + 1)
    } else {
        seq![s.subrange(i, s.len() as int)]
    }
}

#[via_fn]
proof fn split_decreases(s: Seq<char>, c: char, i: int) {
    find_bounds(s, c, i);
}

/// The characters of each of these lists.
pub open spec fn pieces(v: Seq<Vec<char>>) -> Seq<Seq<char>> {
    Seq::new(v.len(), |i: int| v[i]@)
}

/// The characters of a list.
pub fn copy_chars(s: &[char]) -> (r: Vec<char>)
    ensures
        r@ == s@,
{
    let mut r: Vec<char> = Vec::new();
    for i in 0..s.len()
        invariant
            r@ =~= s@.take(i as int),
    {
        r.push(s[i]);
    }
    assert(s@.take(s@.len() as int) =~= s@);
    r
}

/// The pieces between the places of a character.
pub fn split(s: &[char], c: char) -> (r: Vec<Vec<char>>)
    ensures
        pieces(r@) == split_v(s@, c, 0),
        r@.len() >= 1,
{
    let mut r: Vec<Vec<char>> = Vec::new();
    let mut i: usize = 0;
    let ghost whole = split_v(s@, c, 0);
    assert(pieces(r@) + whole =~= whole);
    loop
        invariant
            i <= s@.len(),
            pieces(r@) + split_v(s@, c, i as int) == whole,
            whole == split_v(s@, c, 0),
        decreases s@.len() - i,
    {
        let j = find(s, c, i);
        let ghost before = pieces(r@);
        let piece = slice_subrange(s, i, j);
        r.push(copy_chars(piece));
        proof {
            assert(pieces(r@) =~= before.push(s@.subrange(i as int, j as int)));
        }
        if j == s.len() {
            assert(pieces(r@) =~= whole);
            return r;
        }
        proof {
            assert(before + (seq![s@.subrange(i as int, j as int)] + split_v(s@, c, j + 1))
                =~= pieces(r@) + split_v(s@, c, j + 1));
        }
        i = j + 1;
    }
}

/// A line without the carriage return it ends with.
pub open spec fn without_return(s: Seq<char>) -> Seq<char> {
    if s.len() > 0 && s.last() == '\r' {
        s.drop_last()
    } else {
        s
    }
}

/// The lines of a text, from the place `i` on: a line ends with a line feed, or
/// with a carriage return and a line feed, and the last one may go without.
pub open spec fn lines_v(s: Seq<char>, i: int) -> Seq<Seq<char>>
    decreases s.len() - i,
    when 0 <= i <= s.len()
    via lines_decreases
{
    let j = find_v(s, '\n', i);
    if i == s.len() {
        Seq::empty()
    } else if j < s.len() {
        seq![without_return(s.subrange(i, j))] + lines_v(s, j + 1)
    } else {
        seq![s.subrange(i, j)]
    }
}

#[via_fn]
proof fn lines_decreases(s: Seq<char>, i: int) {
    find_bounds(s, '\n', i);
}

/// The lines of a text.
pub fn lines(s: &[char]) -> (r: Vec<Vec<char>>)
    ensures
        pieces(r@) == lines_v(s@, 0),
{
    let mut r: Vec<Vec<char>> = Vec::new();
    let mut i: usize = 0;
    let ghost whole = lines_v(s@, 0);
    assert(pieces(r@) + whole =~= whole);
    while i < s.len()
        invariant
            i <= s@.len(),
            pieces(r@) + lines_v(s@, i as int) == whole,
        decreases s@.len() - i,
    {
        let j = find(s, '\n', i);
        let ghost before = pieces(r@);
        if j == s.len() {
            let line = slice_subrange(s, i, j);
            r.push(copy_chars(line));
            proof {
                assert(pieces(r@) =~= before.push(s@.subrange(i as int, j as int)));
                assert(pieces(r@) =~= whole);
                assert(lines_v(s@, j as int) =~= Seq::empty());
                assert(pieces(r@) + lines_v(s@, j as int) =~= whole);
            }
            i = j;
        } else {
            let end = if j > i && s[j - 1] == '\r' {
                j - 1
            } else {
                j
            };
            let line = slice_subrange(s, i, end);
            r.push(copy_chars(line));
            proof {
                let t = s@.subrange(i as int, j as int);
                if j > i {
                    assert(t.last() == s@[j - 1]);
                }
                assert(line@ =~= without_return(t));
                assert(pieces(r@) =~= before.push(without_return(t)));
                assert(before + (seq![without_return(t)] + lines_v(s@, j + 1)) =~= pieces(r@)
                    + lines_v(s@, j + 1));
            }
            i = j + 1;
        }
    }
    proof {
        assert(lines_v(s@, i as int) =~= Seq::empty());
        assert(pieces(r@) =~= whole);
    }
    r
}

/// `p` is how `s` starts.
pub open spec fn has_prefix(s: Seq<char>, p: Seq<char>) -> bool {
    p.len() <= s.len() && s.take(p.len() as int) == p
}

/// What follows a prefix.
pub fn strip_prefix<'a>(s: &'a [char], p: &[char]) -> (r: Option<&'a [char]>)
    ensures
        match r {
            Some(t) => has_prefix(s@, p@) && t@ == s@.skip(p@.len() as int),
            None => !has_prefix(s@, p@),
        },
{
    if p.len() > s.len() {
        return None;
    }
    let head = slice_subrange(s, 0, p.len());
    assert(head@ =~= s@.take(p@.len() as int));
    if same_chars(head, p) {
        let t = slice_subrange(s, p.len(), s.len());
        assert(t@ =~= s@.skip(p@.len() as int));
        Some(t)
    } else {
        None
    }
}

/// How many spaces a line begins with.
pub open spec fn indent_v(s: Seq<char>, i: int) -> int
    decreases s.len() - i,
{
    if 0 <= i < s.len() && s[i] == ' ' {
        indent_v(s, i + 1)
    } else {
        i
    }
}

/// The indentation of a line, in spaces, and its content with the indentation
/// stripped. A line of only spaces counts as blank.
pub fn split_indent(line: &[char]) -> (r: (usize, &[char]))
    ensures
        r.0 == indent_v(line@, 0),
        r.0 <= line@.len(),
        r.1@ == line@.skip(r.0 as int),
{
    let mut i: usize = 0;
    while i < line.len() && line[i] == ' '
        invariant
            i <= line@.len(),
            indent_v(line@, 0) == indent_v(line@, i as int),
        decreases line@.len() - i,
    {
        i = i + 1;
    }
    let body = slice_subrange(line, i, line.len());
    assert(body@ =~= line@.skip(i as int));
    (i, body)
}

pub open spec fn is_digit(c: char) -> bool {
    '0' <= c <= '9'
}

/// The number decimal digits stand for, `None` where one is no digit.
pub open spec fn digits_v(s: Seq<char>) -> Option<nat>
    decreases s.len(),
{
    if s.len() == 0 {
        Some(0)
    } else {
        match digits_v(s.drop_last()) {
            Some(n) => if is_digit(s.last()) {
                Some(10 * n + (s.last() as nat - '0' as nat) as nat)
            } else {
                None
            },
            None => None,
        }
    }
}

/// The whole number a text stands for: an optional plus sign and one digit at
/// least, when it is no larger than `max`.
pub open spec fn natural_v(s: Seq<char>, max: nat) -> Option<nat> {
    let d = if s.len() > 0 && s[0] == '+' {
        s.skip(1)
    } else {
        s
    };
    if d.len() == 0 {
        None
    } else {
        match digits_v(d) {
            Some(n) => if n <= max {
                Some(n)
            } else {
                None
            },
            None => None,
        }
    }
}

proof fn digits_prefix(s: Seq<char>, i: int, max: nat)
    requires
        0 <= i <= s.len(),
        digits_v(s.take(i)) is None || digits_v(s.take(i)).unwrap() > max,
    ensures
        digits_v(s) is None || digits_v(s).unwrap() > max,
    decreases s.len() - i,
{
    if i < s.len() {
        assert(s.take(i + 1).drop_last() =~= s.take(i));
        digits_prefix(s, i + 1, max);
    } else {
        assert(s.take(i) =~= s);
    }
}

/// The whole number a text stands for.
pub fn natural(s: &[char], max: u64) -> (r: Option<u64>)
    ensures
        match r {
            Some(n) => natural_v(s@, max as nat) == Some(n as nat),
            None => natural_v(s@, max as nat) is None,
        },
{
    let start: usize = if s.len() > 0 && s[0] == '+' {
        1
    } else {
        0
    };
    let ghost d = s@.skip(start as int);
    assert(start == 0 ==> d =~= s@);
    if s.len() == start {
        return None;
    }
    let mut n: u128 = 0;
    assert(d.take(0) =~= Seq::empty());
    for i in start..s.len()
        invariant
            start <= s@.len(),
            d == s@.skip(start as int),
            n <= max,
            digits_v(d.take(i - start)) == Some(n as nat),
            d.len() > 0,
            natural_v(s@, max as nat) == (match digits_v(d) {
                Some(n) => if n <= max {
                    Some(n)
                } else {
                    None
                },
                None => None,
            }),
    {
        let c = s[i];
        proof {
            assert(d.take(i - start + 1).drop_last() =~= d.take(i - start));
            assert(d.take(i - start + 1).last() == c);
        }
        if !('0' <= c && c <= '9') {
            proof {
                digits_prefix(d, i - start + 1, max as nat);
            }
            return None;
        }
        n = 10 * n + (c as u32 - '0' as u32) as u128;
        if n > max as u128 {
            proof {
                digits_prefix(d, i - start + 1, max as nat);
            }
            return None;
        }
    }
    assert(d.take(d.len() as int) =~= d);
    Some(n as u64)
}

/// The integer a text stands for, a sign and one digit at least, when it lies
/// between `-max - 1` and `max`.
pub open spec fn integer_v(s: Seq<char>, max: nat) -> Option<int> {
    if s.len() > 0 && s[0] == '-' {
        let d = s.skip(1);
        if d.len() == 0 {
            None
        } else {
            match digits_v(d) {
                Some(n) => if n <= max + 1 {
                    Some(-(n as int))
                } else {
                    None
                },
                None => None,
            }
        }
    } else {
        match natural_v(s, max) {
            Some(n) => Some(n as int),
            None => None,
        }
    }
}

/// The integer a text stands for.
pub fn integer(s: &[char], max: u32) -> (r: Option<i64>)
    ensures
        match r {
            Some(n) => integer_v(s@, max as nat) == Some(n as int),
            None => integer_v(s@, max as nat) is None,
        },
        r matches Some(n) ==> -(max as int) - 1 <= n <= max,
{
    if s.len() > 0 && s[0] == '-' {
        let d = slice_subrange(s, 1, s.len());
        assert(d@ =~= s@.skip(1));
        if d.len() == 0 {
            return None;
        }
        if d[0] == '+' {
            assert(digits_v(d@) is None) by {
                assert(d@.take(1).last() == '+');
                digits_prefix(d@, 1, 0);
                no_digit_first(d@);
            }
            return None;
        }
        match natural(d, max as u64 + 1) {
            Some(n) => Some(-(n as i64)),
            None => None,
        }
    } else {
        match natural(s, max as u64) {
            Some(n) => Some(n as i64),
            None => None,
        }
    }
}

proof fn no_digit_first(s: Seq<char>)
    requires
        s.len() > 0,
        !is_digit(s[0]),
    ensures
        digits_v(s) is None,
    decreases s.len(),
{
    if s.len() > 1 {
        assert(s.drop_last()[0] == s[0]);
        no_digit_first(s.drop_last());
    }
}

/// The text without the characters `c` it begins with.
pub open spec fn shed_start(s: Seq<char>, c: char) -> Seq<char>
    decreases s.len(),
{
    if s.len() > 0 && s[0] == c {
        shed_start(s.skip(1), c)
    } else {
        s
    }
}

/// The text without the characters `c` it ends with.
pub open spec fn shed_end(s: Seq<char>, c: char) -> Seq<char>
    decreases s.len(),
{
    if s.len() > 0 && s.last() == c {
        shed_end(s.drop_last(), c)
    } else {
        s
    }
}

/// The text without the characters `first` it begins with and the characters
/// `last` it ends with.
pub fn shed<'a>(s: &'a [char], first: char, last: char) -> (r: &'a [char])
    ensures
        r@ == shed_end(shed_start(s@, first), last),
{
    let n = s.len();
    let mut a: usize = 0;
    assert(s@.skip(0) =~= s@);
    while a < n && s[a] == first
        invariant
            n == s@.len(),
            a <= n,
            shed_start(s@, first) == shed_start(s@.skip(a as int), first),
        decreases n - a,
    {
        assert(s@.skip(a as int).skip(1) =~= s@.skip(a + 1));
        a = a + 1;
    }
    let ghost t = s@.skip(a as int);
    assert(shed_start(s@, first) == t);
    let mut b: usize = n;
    assert(s@.subrange(a as int, n as int) =~= t);
    while b > a && s[b - 1] == last
        invariant
            n == s@.len(),
            a <= b <= n,
            shed_end(t, last) == shed_end(s@.subrange(a as int, b as int), last),
        decreases b,
    {
        let ghost u = s@.subrange(a as int, b as int);
        assert(u.last() == s@[b - 1]);
        assert(u.drop_last() =~= s@.subrange(a as int, b - 1));
        b = b - 1;
    }
    proof {
        let u = s@.subrange(a as int, b as int);
        if b > a {
            assert(u.last() == s@[b - 1]);
        }
    }
    slice_subrange(s, a, b)
}

/// A character stands somewhere in the text.
pub open spec fn has_char(s: Seq<char>, c: char) -> bool {
    find_v(s, c, 0) < s.len()
}

/// A number without the zeros its fraction ends with, nor a point at the end.
pub open spec fn trimmed_v(s: Seq<char>) -> Seq<char> {
    if has_char(s, '.') {
        let t = shed_end(s, '0');
        if t.len() > 0 && t.last() == '.' {
            t.drop_last()
        } else {
            t
        }
    } else {
        s
    }
}

/// Whether a character stands somewhere in the text.
pub fn holds_char(s: &[char], c: char) -> (r: bool)
    ensures
        r == has_char(s@, c),
{
    find(s, c, 0) < s.len()
}

/// Drops the zeros a text ends with.
pub fn drop_zeros(s: &mut Vec<char>)
    ensures
        final(s)@ == shed_end(old(s)@, '0'),
{
    while s.len() > 0 && s[s.len() - 1] == '0'
        invariant
            shed_end(s@, '0') == shed_end(old(s)@, '0'),
        decreases s@.len(),
    {
        let ghost before = s@;
        let _ = s.pop();
        assert(s@ =~= before.drop_last());
    }
}

/// A number without the zeros its fraction ends with, nor a point at the end.
pub fn trimmed(s: Vec<char>) -> (r: Vec<char>)
    ensures
        r@ == trimmed_v(s@),
{
    let mut t = s;
    if holds_char(t.as_slice(), '.') {
        drop_zeros(&mut t);
        if t.len() > 0 && t[t.len() - 1] == '.' {
            let ghost before = t@;
            let _ = t.pop();
            assert(t@ =~= before.drop_last());
        }
    }
    t
}

} // verus!
