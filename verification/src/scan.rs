//! The scanner of the grammar: blanks, punctuation, names and numbers over the
//! bytes of a text.

use vstd::prelude::*;
use vstd::string::*;
use crate::num::Number;
use crate::text::{cat2, cat3, decimal, decimal_of, quote, quote_char, quoted, quoted_char};

verus! {

pub open spec fn is_blank(b: u8) -> bool {
    b == 0x20 || b == 0x09 || b == 0x0a || b == 0x0c || b == 0x0d
}

pub open spec fn is_word(b: u8) -> bool {
    ||| 0x30 <= b <= 0x39
    ||| 0x41 <= b <= 0x5a
    ||| 0x61 <= b <= 0x7a
    ||| b == 0x5f
}

/// The byte at a place is this one.
pub open spec fn sees(b: Seq<u8>, at: int, c: u8) -> bool {
    0 <= at < b.len() && b[at] == c
}

/// The first place from `at` on that is neither blank nor in a comment; a
/// comment opens on `#` and ends with the line.
pub open spec fn skip_v(b: Seq<u8>, at: int, comment: bool) -> int
    decreases b.len() - at,
{
    if at >= b.len() {
        at
    } else if comment {
        skip_v(b, at + 1, b[at] != 0x0a)
    } else if is_blank(b[at]) {
        skip_v(b, at + 1, false)
    } else if b[at] == 0x23 {
        skip_v(b, at + 1, true)
    } else {
        at
    }
}

pub proof fn skip_bounds(b: Seq<u8>, at: int, comment: bool)
    ensures
        at <= skip_v(b, at, comment),
        at <= b.len() ==> skip_v(b, at, comment) <= b.len(),
    decreases b.len() - at,
{
    if at < b.len() {
        if comment {
            skip_bounds(b, at + 1, b[at] != 0x0a);
        } else if is_blank(b[at]) {
            skip_bounds(b, at + 1, false);
        } else if b[at] == 0x23 {
            skip_bounds(b, at + 1, true);
        }
    }
}

/// Where the name that opens at a place ends.
pub open spec fn word_end(b: Seq<u8>, at: int) -> int
    decreases b.len() - at,
{
    if 0 <= at < b.len() && is_word(b[at]) {
        word_end(b, at + 1)
    } else {
        at
    }
}

/// A byte that a number may hold at a place. A minus is part of an exponent
/// alone; the grammar has no negative quantities.
pub open spec fn in_number(b: Seq<u8>, at: int) -> bool {
    let c = b[at];
    ||| 0x30 <= c <= 0x39
    ||| c == 0x2e
    ||| c == 0x65
    ||| c == 0x45
    ||| c == 0x2b
    ||| c == 0x2d && (sees(b, at - 1, 0x65) || sees(b, at - 1, 0x45))
}

/// Where the number that opens at a place ends.
pub open spec fn number_end(b: Seq<u8>, at: int) -> int
    decreases b.len() - at,
{
    if 0 <= at < b.len() && in_number(b, at) {
        number_end(b, at + 1)
    } else {
        at
    }
}

/// The bytes from one place to another, each a character.
pub open spec fn chars_v(b: Seq<u8>, from: int, to: int) -> Seq<char> {
    Seq::new((to - from) as nat, |i: int| b[from + i] as char)
}

/// What stands at a place, as an error tells it.
pub open spec fn found_v(b: Seq<u8>, at: int) -> Seq<char> {
    if at < b.len() {
        "Some("@ + quoted_char(b[at] as char) + ")"@
    } else {
        "None"@
    }
}

/// The place after a byte that has to come next.
pub open spec fn eat_v(b: Seq<u8>, at: int, c: u8) -> Result<int, Seq<char>> {
    let s = skip_v(b, at, false);
    if sees(b, s, c) {
        Ok(s + 1)
    } else {
        Err(
            "expected "@ + quoted_char(c as char) + " at byte "@ + decimal(s as nat) + ", found "@
                + found_v(b, s),
        )
    }
}

/// The name that has to come next, and the place after it.
pub open spec fn name_v(b: Seq<u8>, at: int) -> Result<(Seq<char>, int), Seq<char>> {
    let s = skip_v(b, at, false);
    let e = word_end(b, s);
    if e == s {
        Err("expected a name at byte "@ + decimal(s as nat))
    } else {
        Ok((chars_v(b, s, e), e))
    }
}

/// The number that has to come next, and the place after it.
pub open spec fn number_v<N: Number>(b: Seq<u8>, at: int) -> Result<(N::Value, int), Seq<char>> {
    let s = skip_v(b, at, false);
    let e = number_end(b, s);
    match N::read_v(chars_v(b, s, e)) {
        Some(x) => Ok((x, e)),
        None => Err(
            "expected a number at byte "@ + decimal(s as nat) + ", found "@ + quoted(
                chars_v(b, s, e),
            ),
        ),
    }
}

pub proof fn word_bounds(b: Seq<u8>, at: int)
    requires
        0 <= at <= b.len(),
    ensures
        at <= word_end(b, at) <= b.len(),
        forall|i: int| at <= i < word_end(b, at) ==> is_word(#[trigger] b[i]),
    decreases b.len() - at,
{
    if at < b.len() && is_word(b[at]) {
        word_bounds(b, at + 1);
    }
}

pub proof fn number_bounds(b: Seq<u8>, at: int)
    requires
        0 <= at <= b.len(),
    ensures
        at <= number_end(b, at) <= b.len(),
    decreases b.len() - at,
{
    if at < b.len() && in_number(b, at) {
        number_bounds(b, at + 1);
    }
}

/// What the scanner steps over lies within the text.
pub proof fn scan_bounds<N: Number>(b: Seq<u8>, at: int, c: u8)
    requires
        0 <= at <= b.len(),
    ensures
        eat_v(b, at, c) matches Ok(p) ==> at < p <= b.len(),
        name_v(b, at) matches Ok(p) ==> at < p.1 <= b.len(),
        number_v::<N>(b, at) matches Ok(p) ==> at <= p.1 <= b.len(),
{
    skip_bounds(b, at, false);
    word_bounds(b, skip_v(b, at, false));
    number_bounds(b, skip_v(b, at, false));
}

pub(crate) fn skip(b: &[u8], start: usize) -> (r: usize)
    requires
        start <= b@.len(),
    ensures
        r == skip_v(b@, start as int, false),
        start <= r <= b@.len(),
{
    let mut at = start;
    let mut comment = false;
    while at < b.len()
        invariant
            start <= at <= b@.len(),
            skip_v(b@, start as int, false) == skip_v(b@, at as int, comment),
        decreases b@.len() - at,
    {
        let c = b[at];
        if comment {
            comment = c != 0x0a;
        } else if c == 0x20 || c == 0x09 || c == 0x0a || c == 0x0c || c == 0x0d {
            comment = false;
        } else if c == 0x23 {
            comment = true;
        } else {
            return at;
        }
        at = at + 1;
    }
    at
}

/// Whether the byte at a place is this one.
pub(crate) fn at_byte(b: &[u8], at: usize, c: u8) -> (r: bool)
    ensures
        r == sees(b@, at as int, c),
{
    at < b.len() && b[at] == c
}

/// The bytes from one place to another, each a character.
pub(crate) fn chars_between(b: &[u8], from: usize, to: usize) -> (r: String)
    requires
        from <= to <= b@.len(),
    ensures
        r@ == chars_v(b@, from as int, to as int),
{
    let mut s = String::new();
    for i in from..to
        invariant
            from <= to <= b@.len(),
            s@ =~= chars_v(b@, from as int, i as int),
    {
        s.push(b[i] as char);
    }
    s
}

fn found(b: &[u8], at: usize) -> (r: String)
    ensures
        r@ == found_v(b@, at as int),
{
    if at < b.len() {
        cat3("Some(", quote_char(b[at] as char).as_str(), ")")
    } else {
        String::from_str("None")
    }
}

pub(crate) fn eat(b: &[u8], at: usize, c: u8) -> (r: Result<usize, String>)
    requires
        at <= b@.len(),
    ensures
        match r {
            Ok(p) => eat_v(b@, at as int, c) == Ok::<int, Seq<char>>(p as int) && at < p <= b@.len(),
            Err(e) => eat_v(b@, at as int, c) == Err::<int, Seq<char>>(e@),
        },
{
    let s = skip(b, at);
    if at_byte(b, s, c) {
        assert(b.len() == b@.len());
        Ok(s + 1)
    } else {
        let head = cat3("expected ", quote_char(c as char).as_str(), " at byte ");
        let tail = found(b, s);
        let m = cat2(head.as_str(), decimal_of(s as u128).as_str());
        let m = cat3(m.as_str(), ", found ", tail.as_str());
        Err(m)
    }
}

pub(crate) fn name(b: &[u8], at: usize) -> (r: Result<(String, usize), String>)
    requires
        at <= b@.len(),
    ensures
        match r {
            Ok((n, p)) => name_v(b@, at as int) == Ok::<(Seq<char>, int), Seq<char>>((n@, p as int))
                && at < p <= b@.len(),
            Err(e) => name_v(b@, at as int) == Err::<(Seq<char>, int), Seq<char>>(e@),
        },
{
    let s = skip(b, at);
    let mut e = s;
    while e < b.len() && ((0x30 <= b[e] && b[e] <= 0x39) || (0x41 <= b[e] && b[e] <= 0x5a) || (0x61
        <= b[e] && b[e] <= 0x7a) || b[e] == 0x5f)
        invariant
            s <= e <= b@.len(),
            word_end(b@, s as int) == word_end(b@, e as int),
        decreases b@.len() - e,
    {
        e = e + 1;
    }
    if e == s {
        Err(cat2("expected a name at byte ", decimal_of(s as u128).as_str()))
    } else {
        Ok((chars_between(b, s, e), e))
    }
}

pub(crate) fn number<N: Number>(b: &[u8], at: usize) -> (r: Result<(N, usize), String>)
    requires
        at <= b@.len(),
    ensures
        match r {
            Ok((x, p)) => number_v::<N>(b@, at as int) == Ok::<(N::Value, int), Seq<char>>(
                (x.value(), p as int),
            ) && at <= p <= b@.len(),
            Err(e) => number_v::<N>(b@, at as int) == Err::<(N::Value, int), Seq<char>>(e@),
        },
{
    let s = skip(b, at);
    let mut e = s;
    while e < b.len()
        invariant
            s <= e <= b@.len(),
            number_end(b@, s as int) == number_end(b@, e as int),
        ensures
            s <= e <= b@.len(),
            number_end(b@, s as int) == e,
        decreases b@.len() - e,
    {
        let c = b[e];
        let power = c == 0x2d && e > 0 && (b[e - 1] == 0x65 || b[e - 1] == 0x45);
        if !((0x30 <= c && c <= 0x39) || c == 0x2e || c == 0x65 || c == 0x45 || c == 0x2b || power) {
            break ;
        }
        e = e + 1;
    }
    let text = chars_between(b, s, e);
    match N::read(text.as_str()) {
        Some(x) => Ok((x, e)),
        None => {
            let m = cat3("expected a number at byte ", decimal_of(s as u128).as_str(), ", found ");
            Err(cat2(m.as_str(), quote(text.as_str()).as_str()))
        },
    }
}

} // verus!
