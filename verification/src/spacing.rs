//! What may be added to the text of a process without changing it: blanks and
//! comments between its tokens, and the empty map of a task that has none.
//!
//! Both are one insertion, and the two texts are read side by side: up to the
//! insertion the places are the same, after it they are apart by its length.

use vstd::prelude::*;
use crate::grammar::{
    chain_v, composed, impacts_v, index_of, map_v, operator_advances, operator_v, process_of,
    process_v, region_advances, region_v, task_v, with_name, Impacts, Reading,
};
use crate::num::Number;
use crate::scan::{
    chars_v, eat_v, in_number, is_blank, is_word, name_v, number_end, number_v, scan_bounds, sees,
    skip_bounds, skip_v, word_end,
};
use crate::tree::Kind;
use crate::writer::yaml_v;

verus! {

/// Whether the place after the first `n` bytes lies in a comment.
pub open spec fn in_comment(b: Seq<u8>, n: int) -> bool
    decreases n,
{
    if n <= 0 {
        false
    } else if in_comment(b, n - 1) {
        b[n - 1] != 0x0a
    } else {
        b[n - 1] == 0x23
    }
}

/// A byte that is a token by itself, or a blank, or opens a comment: a round or
/// curly bracket, a comma, a colon.
pub open spec fn stands_alone(c: u8) -> bool {
    ||| is_blank(c)
    ||| c == 0x23
    ||| c == 0x28
    ||| c == 0x29
    ||| c == 0x7b
    ||| c == 0x7d
    ||| c == 0x2c
    ||| c == 0x3a
}

/// Blanks and comments, the last comment at its end where something follows.
pub open spec fn gap(g: Seq<u8>, y: Seq<u8>) -> bool {
    &&& skip_v(g, 0, false) == g.len()
    &&& y.len() > 0 ==> !in_comment(g, g.len() as int)
}

/// No token reaches from the one text into the other.
pub open spec fn apart(x: Seq<u8>, y: Seq<u8>) -> bool {
    x.len() == 0 || y.len() == 0 || stands_alone(x.last()) || stands_alone(y[0])
}

/// A byte a number may end with.
pub open spec fn ends_number(c: u8) -> bool {
    0x30 <= c <= 0x39 || c == 0x2e || c == 0x65 || c == 0x45 || c == 0x2b
}

/// An empty map may stand here: a number has ended, and the next token is the
/// parenthesis that closes a task.
pub open spec fn map_fits(x: Seq<u8>, y: Seq<u8>) -> bool {
    &&& x.len() > 0
    &&& ends_number(x.last())
    &&& sees(y, skip_v(y, 0, false), 0x29)
}

/// The empty map, with the comma before it.
pub open spec fn empty_map() -> Seq<u8> {
    seq![0x2cu8, 0x7bu8, 0x7du8]
}

/// Two readings of one process.
pub open spec fn same_process<V>(
    a: Result<Reading<V>, Seq<char>>,
    b: Result<Reading<V>, Seq<char>>,
) -> bool {
    match a {
        Ok(r) => b matches Ok(s) && r.term == s.term && r.names == s.names,
        Err(e) => b is Err,
    }
}

/// Two readings of one process, written to one and the same file.
pub open spec fn same_file<N: Number>(
    a: Result<Reading<N::Value>, Seq<char>>,
    b: Result<Reading<N::Value>, Seq<char>>,
) -> bool {
    &&& same_process(a, b)
    &&& a matches Ok(r) ==> b matches Ok(s) && yaml_v::<N>(r.term, r.names) == yaml_v::<N>(
        s.term,
        s.names,
    )
}

/// A text with something put in between.
struct Edit {
    x: Seq<u8>,
    g: Seq<u8>,
    y: Seq<u8>,
    map: bool,
}

impl Edit {
    spec fn plain(self) -> Seq<u8> {
        self.x + self.y
    }

    spec fn full(self) -> Seq<u8> {
        self.x + self.g + self.y
    }

    spec fn n(self) -> int {
        self.x.len() as int
    }

    spec fn k(self) -> int {
        self.g.len() as int
    }

    spec fn ok(self) -> bool {
        &&& self.k() > 0
        &&& !in_comment(self.x, self.n())
        &&& self.map ==> self.g == empty_map() && map_fits(self.x, self.y)
        &&& !self.map ==> gap(self.g, self.y) && apart(self.x, self.y)
    }

    /// The same token opens at these two places, or both texts end.
    spec fn meet(self, i: int, j: int) -> bool {
        ||| 0 <= i < self.n() && j == i && !in_comment(self.x, i)
        ||| self.n() <= i <= self.plain().len() && j == i + self.k()
    }

    /// Both places are where the insertion begins.
    spec fn begins(self, i: int, j: int) -> bool {
        i == self.n() && j == i
    }

    /// The texts are read on from these two places.
    spec fn pair(self, i: int, j: int) -> bool {
        self.meet(i, j) || self.begins(i, j)
    }

    /// The places from which the texts are read on in the same way.
    spec fn level(self, i: int, j: int) -> bool {
        self.meet(i, j) || self.begins(i, j) && !self.map
    }
}

// ---------------------------------------------------------------------------
// blanks
// ---------------------------------------------------------------------------

/// Blanks are skipped the same behind another text.
proof fn skip_behind(u: Seq<u8>, v: Seq<u8>, i: int, c: bool)
    requires
        0 <= i,
    ensures
        skip_v(u + v, u.len() + i, c) == u.len() + skip_v(v, i, c),
    decreases v.len() - i,
{
    if i < v.len() {
        assert((u + v)[u.len() + i] == v[i]);
        if c {
            skip_behind(u, v, i + 1, v[i] != 0x0a);
        } else if is_blank(v[i]) {
            skip_behind(u, v, i + 1, false);
        } else if v[i] == 0x23 {
            skip_behind(u, v, i + 1, true);
        }
    }
}

/// Blanks are skipped up to the next token, or on beyond the end.
proof fn skip_before(u: Seq<u8>, v: Seq<u8>, i: int)
    requires
        0 <= i <= u.len(),
    ensures
        ({
            let c = in_comment(u, i);
            let s = skip_v(u, i, c);
            &&& i <= s <= u.len()
            &&& s < u.len() ==> skip_v(u + v, i, c) == s && !in_comment(u, s)
            &&& s == u.len() ==> skip_v(u + v, i, c) == u.len() + skip_v(
                v,
                0,
                in_comment(u, u.len() as int),
            )
            &&& s == u.len() && i < s && !in_comment(u, s) ==> is_blank(u[s - 1])
        }),
    decreases u.len() - i,
{
    let c = in_comment(u, i);
    if i < u.len() {
        assert((u + v)[i] == u[i]);
        assert(in_comment(u, i + 1) == if c {
            u[i] != 0x0a
        } else {
            u[i] == 0x23
        });
        if c || is_blank(u[i]) || u[i] == 0x23 {
            skip_before(u, v, i + 1);
        }
    } else {
        skip_behind(u, v, 0, c);
    }
}

impl Edit {
    /// The two texts, byte by byte.
    proof fn bytes(self)
        ensures
            self.plain().len() == self.n() + self.y.len(),
            self.full().len() == self.n() + self.k() + self.y.len(),
            forall|i: int| 0 <= i < self.n() ==> #[trigger] self.plain()[i] == self.x[i],
            forall|i: int| 0 <= i < self.n() ==> #[trigger] self.full()[i] == self.x[i],
            forall|i: int|
                self.n() <= i < self.plain().len() ==> #[trigger] self.plain()[i] == self.y[i
                    - self.n()],
            forall|i: int|
                self.n() + self.k() <= i < self.full().len() ==> #[trigger] self.full()[i]
                    == self.y[i - self.n() - self.k()],
            forall|i: int|
                self.n() <= i < self.n() + self.k() ==> #[trigger] self.full()[i] == self.g[i
                    - self.n()],
    {
    }

    /// What follows the insertion, from its place on.
    proof fn behind(self, i: int, c: bool)
        requires
            self.n() <= i,
        ensures
            skip_v(self.plain(), i, c) + self.k() == skip_v(self.full(), i + self.k(), c),
            skip_v(self.plain(), i, c) == self.n() + skip_v(self.y, i - self.n(), c),
    {
        skip_behind(self.x, self.y, i - self.n(), c);
        skip_behind(self.x + self.g, self.y, i - self.n(), c);
    }

    /// A gap is skipped.
    proof fn gap_skipped(self)
        requires
            self.ok(),
            !self.map,
        ensures
            skip_v(self.full(), self.n(), false) == self.n() + self.k() + skip_v(self.y, 0, false),
            self.y.len() > 0 ==> is_blank(self.g.last()),
            is_blank(self.g[0]) || self.g[0] == 0x23,
    {
        let (g, y) = (self.g, self.y);
        assert(self.full() =~= self.x + (g + y));
        skip_behind(self.x, g + y, 0, false);
        skip_before(g, y, 0);
        if y.len() == 0 {
            assert(skip_v(y, 0, true) == 0 && skip_v(y, 0, false) == 0);
        }
    }

    /// Blanks are skipped in both texts up to the same token.
    proof fn skips(self, i: int, j: int)
        requires
            self.ok(),
            self.level(i, j),
        ensures
            ({
                let (p, q) = (skip_v(self.plain(), i, false), skip_v(self.full(), j, false));
                &&& self.meet(p, q)
                &&& i <= p && j <= q
                &&& forall|c: u8| sees(self.plain(), p, c) == #[trigger] sees(self.full(), q, c)
                &&& p == self.plain().len() <==> q == self.full().len()
                &&& i < p && p == self.n() ==> is_blank(self.x.last())
            }),
    {
        self.bytes();
        let (a, b) = (self.plain(), self.full());
        skip_bounds(a, i, false);
        skip_bounds(b, j, false);
        skip_bounds(self.y, 0, false);
        if i < self.n() {
            skip_before(self.x, self.y, i);
            skip_before(self.x, self.g + self.y, i);
            assert(self.x + (self.g + self.y) =~= b);
            if skip_v(self.x, i, false) == self.n() {
                assert(is_blank(self.x[self.n() - 1]));
                assert(!self.map);
                self.gap_skipped();
                self.behind(self.n(), false);
                skip_behind(self.x, self.g + self.y, 0, false);
            }
        } else {
            self.behind(i, false);
            if j == i {
                self.gap_skipped();
            }
        }
    }

    /// The insertion of a map is met with the parenthesis after it.
    proof fn at_map(self)
        requires
            self.ok(),
            self.map,
        ensures
            ({
                let (p, q) = (
                    skip_v(self.plain(), self.n(), false),
                    skip_v(self.full(), self.n(), false),
                );
                &&& sees(self.plain(), p, 0x29)
                &&& q == self.n()
                &&& sees(self.full(), q, 0x2c)
                &&& sees(self.full(), q + 1, 0x7b)
                &&& sees(self.full(), q + 2, 0x7d)
                &&& skip_v(self.full(), q + 1, false) == q + 1
                &&& skip_v(self.full(), q + 2, false) == q + 2
            }),
    {
        self.bytes();
        self.behind(self.n(), false);
        skip_bounds(self.y, 0, false);
    }

    // -----------------------------------------------------------------------
    // tokens
    // -----------------------------------------------------------------------

    /// What comes right after the first text continues no token of it.
    proof fn breaks(self)
        requires
            self.ok(),
            self.n() > 0,
            !stands_alone(self.x.last()),
        ensures
            forall|c: u8| #[trigger]
                sees(self.plain(), self.n(), c) ==> stands_alone(c),
            forall|c: u8| #[trigger] sees(self.full(), self.n(), c) ==> stands_alone(c),
    {
        self.bytes();
        if self.map {
            assert(self.full()[self.n()] == 0x2c);
        } else {
            self.gap_skipped();
        }
    }

    /// A byte that has to come next comes next in both texts, but where a map
    /// was put in.
    proof fn eats(self, i: int, j: int, c: u8)
        requires
            self.ok(),
            self.pair(i, j),
            stands_alone(c) || c == 0x5d,
            !is_blank(c),
            c != 0x23,
        ensures
            self.level(i, j) ==> match eat_v(self.plain(), i, c) {
                Ok(p) => eat_v(self.full(), j, c) matches Ok(q) && self.after(p, q) && i < p && j < q,
                Err(e) => eat_v(self.full(), j, c) is Err,
            },
            !self.level(i, j) && c != 0x29 ==> eat_v(self.plain(), i, c) is Err,
            !self.level(i, j) && c != 0x2c ==> eat_v(self.full(), j, c) is Err,
            !self.level(i, j) && c == 0x2c ==> eat_v(self.full(), j, c) == Ok::<int, Seq<char>>(j + 1),
    {
        self.bytes();
        if self.level(i, j) {
            self.skips(i, j);
            let (p, q) = (skip_v(self.plain(), i, false), skip_v(self.full(), j, false));
            assert(sees(self.plain(), p, c) == sees(self.full(), q, c));
            if sees(self.plain(), p, c) {
                self.steps(p, q);
            }
        } else {
            self.at_map();
        }
    }

    /// Read on from here, with a byte before that ends no exponent.
    spec fn after(self, i: int, j: int) -> bool {
        &&& self.level(i, j)
        &&& 0 < i <= self.plain().len()
        &&& 0 < j <= self.full().len()
        &&& self.plain()[i - 1] != 0x65 && self.plain()[i - 1] != 0x45
    }

    /// One byte further, which is no part of a word or a number.
    proof fn steps(self, p: int, q: int)
        requires
            self.ok(),
            self.meet(p, q),
            p < self.plain().len(),
            self.plain()[p] != 0x23,
            !ends_number(self.plain()[p]),
        ensures
            self.after(p + 1, q + 1),
    {
        self.bytes();
    }

    /// A word is the same in both texts.
    proof fn words(self, p: int, q: int)
        requires
            self.ok(),
            self.meet(p, q),
        ensures
            ({
                let (e, f) = (word_end(self.plain(), p), word_end(self.full(), q));
                &&& self.pair(e, f)
                &&& e - p == f - q
                &&& e >= p
                &&& chars_v(self.plain(), p, e) == chars_v(self.full(), q, f)
            }),
        decreases self.plain().len() - p,
    {
        self.bytes();
        let (a, b) = (self.plain(), self.full());
        if p < a.len() && is_word(a[p]) {
            assert(b[q] == a[p]);
            if p + 1 == self.n() {
                self.breaks();
                assert(!(self.n() < a.len() && is_word(a[self.n()]))) by {
                    if self.n() < a.len() {
                        assert(sees(a, self.n(), a[self.n()]));
                    }
                }
                assert(!(self.n() < b.len() && is_word(b[self.n()]))) by {
                    assert(sees(b, self.n(), b[self.n()]));
                }
                assert(word_end(a, p + 1) == p + 1);
                assert(word_end(b, q + 1) == q + 1);
                assert(chars_v(a, p, p + 1) =~= chars_v(b, q, q + 1));
            } else {
                assert(self.meet(p + 1, q + 1));
                self.words(p + 1, q + 1);
                let (e, f) = (word_end(a, p), word_end(b, q));
                assert forall|i: int| 0 <= i < e - p implies chars_v(a, p, e)[i] == chars_v(b, q, f)[i] by {
                    if i > 0 {
                        assert(chars_v(a, p + 1, e)[i - 1] == chars_v(b, q + 1, f)[i - 1]);
                    }
                }
                assert(chars_v(a, p, e) =~= chars_v(b, q, f));
            }
        } else {
            assert(p < a.len() ==> b[q] == a[p]);
            assert(chars_v(a, p, p) =~= chars_v(b, q, q));
        }
    }

    /// A number is the same in both texts.
    proof fn numbers(self, p: int, q: int)
        requires
            self.ok(),
            self.meet(p, q),
            p == self.n() && 0 < p < self.plain().len() && self.plain()[p] == 0x2d ==> {
                &&& q > 0
                &&& self.plain()[p - 1] != 0x65 && self.plain()[p - 1] != 0x45
                &&& self.full()[q - 1] != 0x65 && self.full()[q - 1] != 0x45
            },
        ensures
            ({
                let (e, f) = (number_end(self.plain(), p), number_end(self.full(), q));
                &&& self.pair(e, f)
                &&& e - p == f - q
                &&& e >= p
                &&& chars_v(self.plain(), p, e) == chars_v(self.full(), q, f)
            }),
        decreases self.plain().len() - p,
    {
        self.bytes();
        let (a, b) = (self.plain(), self.full());
        if p < a.len() {
            assert(b[q] == a[p]);
            assert(in_number(a, p) == in_number(b, q)) by {
                if p == 0 && self.n() == 0 {
                    self.gap_skipped();
                } else if p > 0 && p != self.n() {
                    assert(a[p - 1] == b[q - 1]);
                }
            }
        }
        if p < a.len() && in_number(a, p) {
            if p + 1 == self.n() {
                self.breaks();
                assert(!(self.n() < a.len() && in_number(a, self.n()))) by {
                    if self.n() < a.len() {
                        assert(sees(a, self.n(), a[self.n()]));
                    }
                }
                assert(!(self.n() < b.len() && in_number(b, self.n()))) by {
                    assert(sees(b, self.n(), b[self.n()]));
                }
                assert(number_end(a, p + 1) == p + 1);
                assert(number_end(b, q + 1) == q + 1);
                assert(chars_v(a, p, p + 1) =~= chars_v(b, q, q + 1));
            } else {
                assert(self.meet(p + 1, q + 1));
                self.numbers(p + 1, q + 1);
                let (e, f) = (number_end(a, p), number_end(b, q));
                assert forall|i: int| 0 <= i < e - p implies chars_v(a, p, e)[i] == chars_v(b, q, f)[i] by {
                    if i > 0 {
                        assert(chars_v(a, p + 1, e)[i - 1] == chars_v(b, q + 1, f)[i - 1]);
                    }
                }
                assert(chars_v(a, p, e) =~= chars_v(b, q, f));
            }
        } else {
            assert(chars_v(a, p, p) =~= chars_v(b, q, q));
        }
    }

    // -----------------------------------------------------------------------
    // the grammar
    // -----------------------------------------------------------------------

    proof fn name_same(self, i: int, j: int)
        requires
            self.ok(),
            self.level(i, j),
        ensures
            match name_v(self.plain(), i) {
                Ok(r) => name_v(self.full(), j) matches Ok(s) && r.0 == s.0 && self.pair(r.1, s.1) && i
                    < r.1,
                Err(e) => name_v(self.full(), j) is Err,
            },
    {
        self.skips(i, j);
        self.words(skip_v(self.plain(), i, false), skip_v(self.full(), j, false));
    }

    proof fn number_same<N: Number>(self, i: int, j: int)
        requires
            self.ok(),
            self.after(i, j),
        ensures
            match number_v::<N>(self.plain(), i) {
                Ok(r) => number_v::<N>(self.full(), j) matches Ok(s) && r.0 == s.0 && self.pair(r.1, s.1)
                    && i <= r.1,
                Err(e) => number_v::<N>(self.full(), j) is Err,
            },
    {
        self.bytes();
        self.skips(i, j);
        let (p, q) = (skip_v(self.plain(), i, false), skip_v(self.full(), j, false));
        if p == self.n() && 0 < p < self.plain().len() && self.plain()[p] == 0x2d {
            assert(self.plain()[p - 1] == self.x.last());
            if self.map {
                assert(self.full()[q - 1] == 0x7d);
            } else {
                self.gap_skipped();
                assert(self.full()[q - 1] == self.g.last());
            }
        }
        self.numbers(p, q);
    }

    /// The impacts of a map. Where a map was put in behind a number, the plain
    /// text ends there, and no brace closes it.
    proof fn impacts_same<N: Number>(
        self,
        i: int,
        j: int,
        task: Seq<char>,
        names: Seq<Seq<char>>,
        impact: Seq<(nat, N::Value)>,
    )
        requires
            self.ok(),
            self.after(i, j),
        ensures
            match impacts_v::<N>(self.plain(), i, task, names, impact) {
                Ok(r) => match impacts_v::<N>(self.full(), j, task, names, impact) {
                    Ok(s) => r.impact == s.impact && r.names == s.names && self.level(r.at, s.at),
                    Err(e) => self.map && r.at == self.n(),
                },
                Err(e) => impacts_v::<N>(self.full(), j, task, names, impact) is Err,
            },
        decreases self.plain().len() - i,
    {
        let (a, b) = (self.plain(), self.full());
        self.name_same(i, j);
        if name_v(a, i) is Ok {
            let (n, p) = name_v(a, i)->Ok_0;
            let q = name_v(b, j)->Ok_0.1;
            self.eats(p, q, 0x3a);
            if eat_v(a, p, 0x3a) is Ok {
                let (u, v) = (eat_v(a, p, 0x3a)->Ok_0, eat_v(b, q, 0x3a)->Ok_0);
                self.number_same::<N>(u, v);
                if number_v::<N>(a, u) is Ok {
                    let (w, r) = number_v::<N>(a, u)->Ok_0;
                    let t = number_v::<N>(b, v)->Ok_0.1;
                    skip_bounds(a, r, false);
                    skip_bounds(b, t, false);
                    scan_bounds::<N>(b, j, 0x3a);
                    scan_bounds::<N>(b, q, 0x3a);
                    scan_bounds::<N>(b, v, 0x3a);
                    let (y, z) = (skip_v(a, r, false), skip_v(b, t, false));
                    let all = with_name(names, n);
                    let more = impact.push((index_of(names, n) as nat, w));
                    if self.level(r, t) {
                        self.skips(r, t);
                        assert(sees(a, y, 0x2c) == sees(b, z, 0x2c));
                        if sees(a, y, 0x2c) {
                            self.steps(y, z);
                            self.impacts_same::<N>(y + 1, z + 1, task, all, more);
                        }
                    } else {
                        self.at_map();
                        assert(word_end(b, z + 1) == z + 1);
                        assert(name_v(b, z + 1) is Err);
                        assert(impacts_v::<N>(b, z + 1, task, all, more) is Err);
                    }
                }
            }
        }
    }

    proof fn map_same<N: Number>(self, i: int, j: int, task: Seq<char>, names: Seq<Seq<char>>)
        requires
            self.ok(),
            self.pair(i, j),
        ensures
            match map_v::<N>(self.plain(), i, task, names) {
                Ok(r) => map_v::<N>(self.full(), j, task, names) matches Ok(s) && r.impact == s.impact
                    && r.names == s.names && self.level(r.at, s.at),
                Err(e) => map_v::<N>(self.full(), j, task, names) is Err,
            },
    {
        self.bytes();
        let (a, b) = (self.plain(), self.full());
        if self.level(i, j) {
            self.skips(i, j);
            let (p, q) = (skip_v(a, i, false), skip_v(b, j, false));
            assert(sees(a, p, 0x2c) == sees(b, q, 0x2c));
            if sees(a, p, 0x2c) {
                self.steps(p, q);
                self.eats(p + 1, q + 1, 0x7b);
                if eat_v(a, p + 1, 0x7b) is Ok {
                    let (u, v) = (eat_v(a, p + 1, 0x7b)->Ok_0, eat_v(b, q + 1, 0x7b)->Ok_0);
                    self.skips(u, v);
                    assert(sees(a, skip_v(a, u, false), 0x7d) == sees(b, skip_v(b, v, false), 0x7d));
                    self.eats(u, v, 0x7d);
                    self.impacts_same::<N>(u, v, task, names, Seq::empty());
                    if impacts_v::<N>(a, u, task, names, Seq::empty()) is Ok {
                        let r = impacts_v::<N>(a, u, task, names, Seq::empty())->Ok_0;
                        if impacts_v::<N>(b, v, task, names, Seq::empty()) is Ok {
                            let s = impacts_v::<N>(b, v, task, names, Seq::empty())->Ok_0;
                            self.eats(r.at, s.at, 0x7d);
                        } else {
                            self.eats(self.n(), self.n(), 0x7d);
                        }
                    }
                }
            }
        } else {
            self.at_map();
        }
    }

    proof fn task_same<N: Number>(self, i: int, j: int, names: Seq<Seq<char>>)
        requires
            self.ok(),
            self.after(i, j),
        ensures
            self.agree::<N>(task_v::<N>(self.plain(), i, names), task_v::<N>(self.full(), j, names)),
    {
        self.bytes();
        let (a, b) = (self.plain(), self.full());
        self.name_same(i, j);
        if name_v(a, i) is Ok {
            let (n, p) = name_v(a, i)->Ok_0;
            let q = name_v(b, j)->Ok_0.1;
            self.eats(p, q, 0x2c);
            if !self.level(p, q) {
                // behind a name the map is taken for a duration
                self.at_map();
                let z = self.n() + 1;
                assert(number_end(b, z) == z);
                if number_v::<N>(b, z) is Ok {
                    let d = number_v::<N>(b, z)->Ok_0.0;
                    assert(map_v::<N>(b, z, n, names) == Ok::<Impacts<N::Value>, Seq<char>>(
                        Impacts { impact: Seq::empty(), at: z, names },
                    ));
                    assert(eat_v(b, z, 0x29) is Err);
                }
            } else if eat_v(a, p, 0x2c) is Ok {
                let (u, v) = (eat_v(a, p, 0x2c)->Ok_0, eat_v(b, q, 0x2c)->Ok_0);
                self.number_same::<N>(u, v);
                if number_v::<N>(a, u) is Ok {
                    let (r, t) = (number_v::<N>(a, u)->Ok_0.1, number_v::<N>(b, v)->Ok_0.1);
                    self.map_same::<N>(r, t, n, names);
                    if map_v::<N>(a, r, n, names) is Ok {
                        self.eats(
                            map_v::<N>(a, r, n, names)->Ok_0.at,
                            map_v::<N>(b, t, n, names)->Ok_0.at,
                            0x29,
                        );
                    }
                }
            }
        }
    }

    /// Two readings agree, and the texts are read on after them.
    spec fn agree<N: Number>(
        self,
        r: Result<Reading<N::Value>, Seq<char>>,
        s: Result<Reading<N::Value>, Seq<char>>,
    ) -> bool {
        match r {
            Ok(u) => s matches Ok(v) && u.term == v.term && u.names == v.names && self.after(u.at, v.at),
            Err(e) => s is Err,
        }
    }

    proof fn operator_same<N: Number>(self, p: int, q: int)
        requires
            self.ok(),
            self.meet(p, q),
            forall|c: u8| sees(self.plain(), p, c) == #[trigger] sees(self.full(), q, c),
        ensures
            match operator_v::<N>(self.plain(), p) {
                Ok(Some(u)) => operator_v::<N>(self.full(), q) matches Ok(Some(v)) && u.0 == v.0 && u.1
                    == v.1 && self.after(u.2, v.2),
                Ok(None) => operator_v::<N>(self.full(), q) == Ok::<
                    Option<(Kind, N::Value, int)>,
                    Seq<char>,
                >(None),
                Err(e) => operator_v::<N>(self.full(), q) is Err,
            },
    {
        self.bytes();
        let (a, b) = (self.plain(), self.full());
        assert(sees(a, p, 0x2d) == sees(b, q, 0x2d));
        assert(sees(a, p, 0x7c) == sees(b, q, 0x7c));
        assert(sees(a, p, 0x5e) == sees(b, q, 0x5e));
        if sees(a, p, 0x2d) || sees(a, p, 0x7c) || sees(a, p, 0x5e) {
            self.steps(p, q);
            if p + 1 == self.n() {
                self.breaks();
            }
            assert(sees(a, p + 1, 0x3e) == sees(b, q + 1, 0x3e));
            assert(sees(a, p + 1, 0x7c) == sees(b, q + 1, 0x7c));
            assert(sees(a, p + 1, 0x5b) == sees(b, q + 1, 0x5b));
            if p + 1 != self.n() && p + 1 < a.len() && (a[p + 1] == 0x3e || a[p + 1] == 0x7c || a[p + 1]
                == 0x5b) {
                self.steps(p + 1, q + 1);
            }
            if sees(a, p, 0x5e) && sees(a, p + 1, 0x5b) {
                assert(p + 1 != self.n());
                self.number_same::<N>(p + 2, q + 2);
                if number_v::<N>(a, p + 2) is Ok {
                    self.eats(
                        number_v::<N>(a, p + 2)->Ok_0.1,
                        number_v::<N>(b, q + 2)->Ok_0.1,
                        0x5d,
                    );
                }
            }
        }
    }

    proof fn region_same<N: Number>(self, i: int, j: int, names: Seq<Seq<char>>)
        requires
            self.ok(),
            self.level(i, j),
        ensures
            self.agree::<N>(
                region_v::<N>(self.plain(), i, names),
                region_v::<N>(self.full(), j, names),
            ),
        decreases self.plain().len() - i, 0nat,
    {
        let (a, b) = (self.plain(), self.full());
        self.bytes();
        self.eats(i, j, 0x28);
        if eat_v(a, i, 0x28) is Ok {
            let (p, q) = (eat_v(a, i, 0x28)->Ok_0, eat_v(b, j, 0x28)->Ok_0);
            self.skips(p, q);
            let (s, t) = (skip_v(a, p, false), skip_v(b, q, false));
            assert(sees(a, s, 0x28) == sees(b, t, 0x28));
            if sees(a, s, 0x28) {
                self.process_same::<N>(s, t, names, true);
                if process_v::<N>(a, s, names, true) is Ok {
                    self.eats(
                        process_v::<N>(a, s, names, true)->Ok_0.at,
                        process_v::<N>(b, t, names, true)->Ok_0.at,
                        0x29,
                    );
                }
            } else {
                self.task_same::<N>(p, q, names);
            }
        }
    }

    proof fn process_same<N: Number>(self, i: int, j: int, names: Seq<Seq<char>>, inside: bool)
        requires
            self.ok(),
            self.level(i, j),
        ensures
            self.agree::<N>(
                process_v::<N>(self.plain(), i, names, inside),
                process_v::<N>(self.full(), j, names, inside),
            ),
        decreases self.plain().len() - i, 1nat,
    {
        let (a, b) = (self.plain(), self.full());
        self.bytes();
        self.region_same::<N>(i, j, names);
        region_advances::<N>(a, i, names);
        region_advances::<N>(b, j, names);
        if region_v::<N>(a, i, names) is Ok {
            let (low, other) = (region_v::<N>(a, i, names)->Ok_0, region_v::<N>(b, j, names)->Ok_0);
            self.skips(low.at, other.at);
            let (s, t) = (skip_v(a, low.at, false), skip_v(b, other.at, false));
            assert(sees(a, s, 0x2c) == sees(b, t, 0x2c));
            assert(sees(a, s, 0x29) == sees(b, t, 0x29));
            if sees(a, s, 0x2c) {
                self.chain_same::<N>(low, other);
            } else {
                self.operator_same::<N>(s, t);
                operator_advances::<N>(a, s);
                operator_advances::<N>(b, t);
                if let Ok(Some(u)) = operator_v::<N>(a, s) {
                    let v = operator_v::<N>(b, t)->Ok_0->0;
                    self.region_same::<N>(u.2, v.2, low.names);
                }
            }
        }
    }

    proof fn chain_same<N: Number>(self, low: Reading<N::Value>, other: Reading<N::Value>)
        requires
            self.ok(),
            low.term == other.term,
            low.names == other.names,
            self.after(low.at, other.at),
        ensures
            self.agree::<N>(chain_v::<N>(self.plain(), low), chain_v::<N>(self.full(), other)),
        decreases self.plain().len() - low.at, 1nat,
    {
        let (a, b) = (self.plain(), self.full());
        self.bytes();
        self.skips(low.at, other.at);
        let (s, t) = (skip_v(a, low.at, false), skip_v(b, other.at, false));
        assert(sees(a, s, 0x2c) == sees(b, t, 0x2c));
        if sees(a, s, 0x2c) {
            self.steps(s, t);
            self.region_same::<N>(s + 1, t + 1, low.names);
            region_advances::<N>(a, s + 1, low.names);
            region_advances::<N>(b, t + 1, low.names);
            if region_v::<N>(a, s + 1, low.names) is Ok {
                let u = region_v::<N>(a, s + 1, low.names)->Ok_0;
                let v = region_v::<N>(b, t + 1, low.names)->Ok_0;
                self.chain_same::<N>(
                    composed(Kind::Sequence, N::zero_v(), low, u),
                    composed(Kind::Sequence, N::zero_v(), other, v),
                );
            }
        }
    }

    proof fn all_same<N: Number>(self)
        requires
            self.ok(),
        ensures
            same_process(process_of::<N>(self.plain()), process_of::<N>(self.full())),
    {
        self.bytes();
        let (a, b) = (self.plain(), self.full());
        assert(self.level(0, 0));
        self.process_same::<N>(0, 0, Seq::empty(), false);
        if process_v::<N>(a, 0, Seq::empty(), false) is Ok {
            let r = process_v::<N>(a, 0, Seq::empty(), false)->Ok_0;
            let s = process_v::<N>(b, 0, Seq::empty(), false)->Ok_0;
            self.skips(r.at, s.at);
        }
    }
}

/// Blanks and comments between the tokens of a text change nothing: with them
/// or without them it is the same process under the same names and gives the
/// same file, or it is refused either way.
pub proof fn blanks_change_nothing<N: Number>(x: Seq<u8>, g: Seq<u8>, y: Seq<u8>)
    requires
        !in_comment(x, x.len() as int),
        gap(g, y),
        apart(x, y),
    ensures
        same_file::<N>(process_of::<N>(x + y), process_of::<N>(x + g + y)),
{
    if g.len() == 0 {
        assert(x + g + y =~= x + y);
    } else {
        Edit { x, g, y, map: false }.all_same::<N>();
    }
}

/// A task without a map and the same task with an empty one are the same: put
/// in between the duration and the closing parenthesis, `,{}` changes neither the
/// process nor the file.
pub proof fn empty_map_changes_nothing<N: Number>(x: Seq<u8>, y: Seq<u8>)
    requires
        !in_comment(x, x.len() as int),
        map_fits(x, y),
    ensures
        same_file::<N>(process_of::<N>(x + y), process_of::<N>(x + empty_map() + y)),
{
    Edit { x, g: empty_map(), y, map: true }.all_same::<N>();
}

} // verus!
