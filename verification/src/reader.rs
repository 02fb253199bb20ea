//! The reader of the instance files.
//!
//! The instance format is rigid, one key per line, and two of its habits break a
//! generic reader: a node is a one-element block sequence whose kind is carried
//! by the presence of a key that also carries the payload (`task: T12`,
//! `nature: 0.859951`), and numbers may be written in exponent form without a
//! decimal point (`1e-06`).
//!
//! The header keys above `tree:` are bookkeeping and optional. What the header
//! declares is checked against the tree; what it leaves out is counted.

use vstd::prelude::*;
use vstd::slice::slice_subrange;
use vstd::string::*;
use crate::num::{dup_vec, vals, zeros, zeros_v, Number};
use crate::text::{
    cat2, cat3, cat5, chars_of, decimal, decimal_of, quote, quoted, same_chars, same_text, signed,
    signed_of, text_of, texts,
};
use crate::semantics::{spans, Vertex};
use crate::tree::{task_ids, task_ids_range, tidy, xor_ids, Kind, Meta, Node, Tree};
use crate::words::{
    has_prefix, indent_v, integer, integer_v, lines, lines_v, natural, natural_v, pieces, shed,
    shed_end, shed_start, split, split_indent, split_once, split_once_v, split_v, strip_prefix,
    trim, trim_v,
};

verus! {

pub struct ParseError {
    pub line: usize,
    pub message: String,
}

/// What is wrong with a text, and on which line; line zero is the whole of it.
pub struct Fault {
    pub line: usize,
    pub message: Seq<char>,
}

impl ParseError {
    pub open spec fn fault(self) -> Fault {
        Fault { line: self.line, message: self.message@ }
    }

    /// The error as a reader is told it.
    pub open spec fn text(self) -> Seq<char> {
        if self.line == 0 {
            self.message@
        } else {
            "line "@ + decimal(self.line as nat) + ": "@ + self.message@
        }
    }

    /// The error as a reader is told it.
    pub fn show(&self) -> (r: String)
        ensures
            r@ == self.text(),
    {
        if self.line == 0 {
            self.message.clone()
        } else {
            let mut s = cat3("line ", decimal_of(self.line as u128).as_str(), ": ");
            s.append(self.message.as_str());
            s
        }
    }
}

/// The number of the line of index `at`.
pub open spec fn line_no(at: int) -> usize {
    (at as usize).wrapping_add(1)
}

pub open spec fn fault_at(at: int, message: Seq<char>) -> Fault {
    Fault { line: line_no(at), message }
}

fn err_at(at: usize, message: String) -> (r: ParseError)
    ensures
        r.fault() == fault_at(at as int, message@),
{
    ParseError { line: at.wrapping_add(1), message }
}

// ---------------------------------------------------------------------------
// the header
// ---------------------------------------------------------------------------

/// What the header of an instance file says.
pub struct Head {
    pub key: Seq<char>,
    pub nested: u32,
    pub independent: u32,
    pub process_number: u32,
    pub dimensions: Option<usize>,
    pub impact_names: Seq<Seq<char>>,
    pub mode: Seq<char>,
    pub seed: u64,
    pub tasks: Option<u32>,
    pub nodes: Option<u32>,
    pub max_duration: u32,
    pub xor_root_kind: Seq<char>,
    pub source: Seq<char>,
    pub expression: Seq<char>,
}

pub open spec fn empty_head() -> Head {
    Head {
        key: Seq::empty(),
        nested: 0,
        independent: 0,
        process_number: 0,
        dimensions: None,
        impact_names: Seq::empty(),
        mode: Seq::empty(),
        seed: 0,
        tasks: None,
        nodes: None,
        max_duration: 0,
        xor_root_kind: Seq::empty(),
        source: Seq::empty(),
        expression: Seq::empty(),
    }
}

/// The header as it is read, with what it leaves out.
struct Header {
    meta: Meta,
    dimensions: Option<usize>,
    tasks: Option<u32>,
    nodes: Option<u32>,
}

impl Header {
    spec fn head(self) -> Head {
        Head {
            key: self.meta.key@,
            nested: self.meta.nested,
            independent: self.meta.independent,
            process_number: self.meta.process_number,
            dimensions: self.dimensions,
            impact_names: texts(self.meta.impact_names@),
            mode: self.meta.mode@,
            seed: self.meta.seed,
            tasks: self.tasks,
            nodes: self.nodes,
            max_duration: self.meta.max_duration,
            xor_root_kind: self.meta.xor_root_kind@,
            source: self.meta.source@,
            expression: self.meta.expression@,
        }
    }
}

/// The first `n` of these pieces that are not blank, trimmed.
pub open spec fn names_v(ps: Seq<Seq<char>>, n: int) -> Seq<Seq<char>>
    decreases n,
{
    if n <= 0 {
        Seq::empty()
    } else {
        let t = trim_v(ps[n - 1]);
        if t.len() == 0 {
            names_v(ps, n - 1)
        } else {
            names_v(ps, n - 1).push(t)
        }
    }
}

/// The names a bracketed list holds.
pub open spec fn name_list(value: Seq<char>) -> Seq<Seq<char>> {
    let ps = split_v(shed_end(shed_start(value, '['), ']'), ',', 0);
    names_v(ps, ps.len() as int)
}

fn read_names(value: &[char]) -> (r: Vec<String>)
    ensures
        texts(r@) == name_list(value@),
{
    let parts = split(shed(value, '[', ']'), ',');
    let ghost ps = pieces(parts@);
    let mut out: Vec<String> = Vec::new();
    assert(texts(out@) =~= names_v(ps, 0));
    for i in 0..parts.len()
        invariant
            ps == pieces(parts@),
            texts(out@) == names_v(ps, i as int),
    {
        let t = trim(parts[i].as_slice());
        assert(ps[i as int] == parts@[i as int]@);
        if t.len() > 0 {
            let ghost before = texts(out@);
            out.push(text_of(t));
            assert(texts(out@) =~= before.push(t@));
        }
    }
    out
}

/// A header number.
pub open spec fn header_number(value: Seq<char>) -> Option<u64> {
    match natural_v(value, u64::MAX as nat) {
        Some(n) => Some(n as u64),
        None => None,
    }
}

/// The keys that carry a number.
pub open spec fn number_key(key: Seq<char>) -> bool {
    ||| key == "nested"@
    ||| key == "independent"@
    ||| key == "process_number"@
    ||| key == "dimensions"@
    ||| key == "seed"@
    ||| key == "tasks"@
    ||| key == "nodes"@
    ||| key == "max_duration"@
}

/// The keys that carry a text.
pub open spec fn text_key(key: Seq<char>) -> bool {
    ||| key == "impact_names"@
    ||| key == "mode"@
    ||| key == "xor_root_kind"@
    ||| key == "source"@
    ||| key == "expression"@
}

/// The header with one more number.
pub open spec fn with_number(h: Head, key: Seq<char>, n: u64) -> Head {
    if key == "nested"@ {
        Head { nested: n as u32, ..h }
    } else if key == "independent"@ {
        Head { independent: n as u32, ..h }
    } else if key == "process_number"@ {
        Head { process_number: n as u32, ..h }
    } else if key == "dimensions"@ {
        Head { dimensions: Some(n as usize), ..h }
    } else if key == "seed"@ {
        Head { seed: n, ..h }
    } else if key == "tasks"@ {
        Head { tasks: Some(n as u32), ..h }
    } else if key == "nodes"@ {
        Head { nodes: Some(n as u32), ..h }
    } else {
        Head { max_duration: n as u32, ..h }
    }
}

/// The header with one more text.
pub open spec fn with_text(h: Head, key: Seq<char>, value: Seq<char>) -> Head {
    if key == "impact_names"@ {
        Head { impact_names: name_list(value), ..h }
    } else if key == "mode"@ {
        Head { mode: value, ..h }
    } else if key == "xor_root_kind"@ {
        Head { xor_root_kind: value, ..h }
    } else if key == "source"@ {
        Head { source: value, ..h }
    } else {
        Head { expression: shed_end(shed_start(value, '"'), '"'), ..h }
    }
}

/// The header with one more key.
pub open spec fn with_key(h: Head, key: Seq<char>, value: Seq<char>, at: int) -> Result<Head, Fault> {
    if number_key(key) {
        match header_number(value) {
            Some(n) => Ok(with_number(h, key, n)),
            None => Err(fault_at(at, quoted(value) + " is not a number"@)),
        }
    } else if text_key(key) {
        Ok(with_text(h, key, value))
    } else {
        Err(fault_at(at, "unknown header key "@ + quoted(key)))
    }
}

/// The header, read from the line of index `at` on, and the index of the line
/// after `tree:`.
pub open spec fn header_v(ls: Seq<Seq<char>>, at: int, h: Head) -> Result<(Head, int), Fault>
    decreases ls.len() - at,
{
    if at >= ls.len() {
        Err(fault_at(at, "the file ends before `tree:`"@))
    } else if trim_v(ls[at]).len() == 0 {
        header_v(ls, at + 1, h)
    } else if indent_v(ls[at], 0) != 0 {
        Err(fault_at(at, "a header key must sit at column zero"@))
    } else if ls[at] == "tree:"@ {
        Ok((h, at + 1))
    } else {
        match split_once_v(ls[at], ':') {
            None => Err(fault_at(at, "no key in "@ + quoted(ls[at]))),
            Some((k, v)) => match with_key(h, trim_v(k), trim_v(v), at) {
                Ok(g) => header_v(ls, at + 1, g),
                Err(f) => Err(f),
            },
        }
    }
}

impl Header {
    fn put_number(&mut self, key: &str, n: u64)
        requires
            number_key(key@),
        ensures
            final(self).head() == with_number(old(self).head(), key@, n),
    {
        if same_text(key, "nested") {
            self.meta.nested = n as u32;
        } else if same_text(key, "independent") {
            self.meta.independent = n as u32;
        } else if same_text(key, "process_number") {
            self.meta.process_number = n as u32;
        } else if same_text(key, "dimensions") {
            self.dimensions = Some(n as usize);
        } else if same_text(key, "seed") {
            self.meta.seed = n;
        } else if same_text(key, "tasks") {
            self.tasks = Some(n as u32);
        } else if same_text(key, "nodes") {
            self.nodes = Some(n as u32);
        } else {
            self.meta.max_duration = n as u32;
        }
    }

    fn put_text(&mut self, key: &str, value: &[char])
        requires
            text_key(key@),
        ensures
            final(self).head() == with_text(old(self).head(), key@, value@),
    {
        if same_text(key, "impact_names") {
            self.meta.impact_names = read_names(value);
        } else if same_text(key, "mode") {
            self.meta.mode = text_of(value);
        } else if same_text(key, "xor_root_kind") {
            self.meta.xor_root_kind = text_of(value);
        } else if same_text(key, "source") {
            self.meta.source = text_of(value);
        } else {
            self.meta.expression = text_of(shed(value, '"', '"'));
        }
    }

    fn put(&mut self, key: &[char], value: &[char], at: usize) -> (r: Result<(), ParseError>)
        ensures
            match r {
                Ok(()) => with_key(old(self).head(), key@, value@, at as int) == Ok::<Head, Fault>(
                    final(self).head(),
                ),
                Err(e) => with_key(old(self).head(), key@, value@, at as int) == Err::<Head, Fault>(
                    e.fault(),
                ),
            },
    {
        let k = text_of(key);
        let word = k.as_str();
        if same_text(word, "nested") || same_text(word, "independent") || same_text(
            word,
            "process_number",
        ) || same_text(word, "dimensions") || same_text(word, "seed") || same_text(word, "tasks")
            || same_text(word, "nodes") || same_text(word, "max_duration") {
            match natural(value, u64::MAX) {
                Some(n) => {
                    self.put_number(word, n);
                    Ok(())
                },
                None => {
                    let v = text_of(value);
                    Err(err_at(at, cat2(quote(v.as_str()).as_str(), " is not a number")))
                },
            }
        } else if same_text(word, "impact_names") || same_text(word, "mode") || same_text(
            word,
            "xor_root_kind",
        ) || same_text(word, "source") || same_text(word, "expression") {
            self.put_text(word, value);
            Ok(())
        } else {
            Err(err_at(at, cat2("unknown header key ", quote(word).as_str())))
        }
    }

    /// Reads the header and hands back the index of the line after `tree:`.
    fn read(&mut self, ls: &Vec<Vec<char>>, start: usize) -> (r: Result<usize, ParseError>)
        requires
            start <= ls@.len(),
        ensures
            match r {
                Ok(at) => header_v(pieces(ls@), start as int, old(self).head()) == Ok::<
                    (Head, int),
                    Fault,
                >((final(self).head(), at as int)) && at <= ls@.len(),
                Err(e) => header_v(pieces(ls@), start as int, old(self).head()) == Err::<
                    (Head, int),
                    Fault,
                >(e.fault()),
            },
    {
        let ghost ps = pieces(ls@);
        let ghost whole = header_v(ps, start as int, self.head());
        let tree_key = chars_of("tree:");
        let mut at = start;
        while at < ls.len()
            invariant
                at <= ls@.len(),
                ps == pieces(ls@),
                tree_key@ == "tree:"@,
                header_v(ps, at as int, self.head()) == whole,
                whole == header_v(ps, start as int, old(self).head()),
            decreases ls@.len() - at,
        {
            let line = ls[at].as_slice();
            assert(ps[at as int] == line@);
            if trim(line).len() == 0 {
                at = at + 1;
                continue ;
            }
            let (indent, body) = split_indent(line);
            if indent != 0 {
                return Err(err_at(at, String::from_str("a header key must sit at column zero")));
            }
            assert(body@ =~= line@);
            if same_chars(line, tree_key.as_slice()) {
                return Ok(at + 1);
            }
            match split_once(line, ':') {
                None => {
                    let t = text_of(line);
                    return Err(err_at(at, cat2("no key in ", quote(t.as_str()).as_str())));
                },
                Some((k, v)) => {
                    let ghost before = self.head();
                    match self.put(trim(k), trim(v), at) {
                        Ok(()) => {},
                        Err(e) => {
                            return Err(e);
                        },
                    }
                },
            }
            at = at + 1;
        }
        Err(err_at(at, String::from_str("the file ends before `tree:`")))
    }
}

// ---------------------------------------------------------------------------
// the nodes
// ---------------------------------------------------------------------------

/// One node as a file writes it. The name and the impact are empty but at a
/// task.
pub struct Entry<V> {
    pub id: u32,
    pub kind: Kind,
    pub low: u32,
    pub high: u32,
    pub duration: i16,
    pub prob: V,
    pub name: Seq<char>,
    pub impact: Seq<V>,
}

/// A subtree as it is read: the identifier of its root, the index of the line
/// after it, its nodes with every branch before the node above it, and the
/// dimension of the impacts as far as it is known.
pub struct Subtree<V> {
    pub id: u32,
    pub at: int,
    pub entries: Seq<Entry<V>>,
    pub dims: Option<nat>,
}

/// The fields of a node that is being read.
pub struct Fields<V> {
    pub id: Option<u32>,
    pub duration: i16,
    pub impact: Option<Seq<V>>,
    pub low: u32,
    pub high: u32,
    pub entries: Seq<Entry<V>>,
    pub dims: Option<nat>,
}

/// The opening line of a node.
pub struct Opening<V> {
    pub indent: int,
    pub kind: Kind,
    pub prob: V,
    pub name: Seq<char>,
}

/// The first line from `at` on that is not blank.
pub open spec fn blank_v(ls: Seq<Seq<char>>, at: int) -> int
    decreases ls.len() - at,
{
    if at < ls.len() && trim_v(ls[at]).len() == 0 {
        blank_v(ls, at + 1)
    } else {
        at
    }
}

pub proof fn blank_bounds(ls: Seq<Seq<char>>, at: int)
    ensures
        at <= blank_v(ls, at),
        at <= ls.len() ==> blank_v(ls, at) <= ls.len(),
    decreases ls.len() - at,
{
    if at < ls.len() && trim_v(ls[at]).len() == 0 {
        blank_bounds(ls, at + 1);
    }
}

pub open spec fn kind_of(word: Seq<char>) -> Option<Kind> {
    if word == "task"@ {
        Some(Kind::Task)
    } else if word == "sequence"@ {
        Some(Kind::Sequence)
    } else if word == "parallel"@ {
        Some(Kind::Parallel)
    } else if word == "choice"@ {
        Some(Kind::Choice)
    } else if word == "nature"@ {
        Some(Kind::Nature)
    } else {
        None
    }
}

/// The probability a nature node carries.
pub open spec fn chance_v<N: Number>(value: Seq<char>, at: int) -> Result<N::Value, Fault> {
    match N::read_v(value) {
        None => Err(fault_at(at, quoted(value) + " is not a probability"@)),
        Some(p) => if N::lt_v(N::zero_v(), p) && N::lt_v(p, N::one_v()) {
            Ok(p)
        } else {
            Err(
                fault_at(
                    at,
                    "a nature node carries "@ + N::show_v(p)
                        + ", and Definition 3 asks for a probability in (0,1)"@,
                ),
            )
        },
    }
}

/// The opening line of a node below a line indented by `parent`.
pub open spec fn opening_v<N: Number>(ls: Seq<Seq<char>>, at: int, parent: int) -> Result<
    Opening<N::Value>,
    Fault,
> {
    let indent = indent_v(ls[at], 0);
    let body = ls[at].skip(indent);
    let head = body.skip(2);
    if at >= ls.len() {
        Err(fault_at(at, "the file ends where a node was expected"@))
    } else if indent <= parent && parent != 0 {
        Err(fault_at(at, "a node is indented no deeper than its parent"@))
    } else if !has_prefix(body, "- "@) {
        Err(fault_at(at, "a node must open on `- `, found "@ + quoted(body)))
    } else {
        match split_once_v(head, ':') {
            None => Err(fault_at(at, "no kind in "@ + quoted(head))),
            Some((k, v)) => match kind_of(trim_v(k)) {
                None => Err(fault_at(at, "unknown node kind "@ + quoted(trim_v(k)))),
                Some(Kind::Nature) => match chance_v::<N>(trim_v(v), at) {
                    Ok(p) => Ok(
                        Opening { indent, kind: Kind::Nature, prob: p, name: Seq::empty() },
                    ),
                    Err(f) => Err(f),
                },
                Some(Kind::Task) => Ok(
                    Opening { indent, kind: Kind::Task, prob: N::zero_v(), name: trim_v(v) },
                ),
                Some(kind) => Ok(Opening { indent, kind, prob: N::zero_v(), name: Seq::empty() }),
            },
        }
    }
}

/// The numbers of the pieces from the one of index `i` on, none of them
/// negative; a blank piece is none.
pub open spec fn numbers_v<N: Number>(ps: Seq<Seq<char>>, i: int, at: int) -> Result<
    Seq<N::Value>,
    Fault,
>
    decreases ps.len() - i,
{
    if i >= ps.len() {
        Ok(Seq::empty())
    } else {
        let piece = trim_v(ps[i]);
        if piece.len() == 0 {
            numbers_v::<N>(ps, i + 1, at)
        } else {
            match N::read_v(piece) {
                None => Err(fault_at(at, quoted(piece) + " is not a number"@)),
                Some(x) => if !N::le_v(N::zero_v(), x) {
                    Err(
                        fault_at(
                            at,
                            "the impact "@ + N::show_v(x)
                                + " is negative, and Definition 3 asks for a vector of R>=0^k"@,
                        ),
                    )
                } else {
                    match numbers_v::<N>(ps, i + 1, at) {
                        Ok(xs) => Ok(seq![x] + xs),
                        Err(f) => Err(f),
                    }
                },
            }
        }
    }
}

/// The vector a bracketed list of numbers stands for.
pub open spec fn vector_v<N: Number>(value: Seq<char>, at: int) -> Result<Seq<N::Value>, Fault> {
    let t = trim_v(value);
    if t.len() >= 2 && t[0] == '[' && t.last() == ']' {
        numbers_v::<N>(split_v(t.subrange(1, t.len() - 1), ',', 0), 0, at)
    } else {
        Err(fault_at(at, quoted(value) + " is not a vector"@))
    }
}

/// The fields with one more of those that take one line.
pub open spec fn field_v<N: Number>(
    f: Fields<N::Value>,
    key: Seq<char>,
    value: Seq<char>,
    at: int,
) -> Result<Fields<N::Value>, Fault> {
    if key == "id"@ {
        match natural_v(value, u32::MAX as nat) {
            Some(n) => Ok(Fields { id: Some(n as u32), ..f }),
            None => Err(fault_at(at, quoted(value) + " is not an identifier"@)),
        }
    } else if key == "duration"@ {
        match integer_v(value, i32::MAX as nat) {
            None => Err(fault_at(at, quoted(value) + " is not a duration"@)),
            Some(d) => if d < 1 {
                Err(
                    fault_at(
                        at,
                        "a task carries the duration "@ + signed(d) + ", which is not positive"@,
                    ),
                )
            } else if d > 127 {
                Err(
                    fault_at(
                        at,
                        "the duration "@ + signed(d)
                            + " does not fit the state encoding, which holds a progress in an i8"@,
                    ),
                )
            } else {
                Ok(Fields { duration: d as i16, ..f })
            },
        }
    } else if key == "impact"@ {
        match vector_v::<N>(value, at) {
            Ok(v) => Ok(Fields { impact: Some(v), ..f }),
            Err(e) => Err(e),
        }
    } else {
        Err(fault_at(at, "unknown node key "@ + quoted(key)))
    }
}

pub open spec fn fresh_fields<V>(dims: Option<nat>) -> Fields<V> {
    Fields {
        id: None,
        duration: 0,
        impact: None,
        low: 0,
        high: 0,
        entries: Seq::empty(),
        dims,
    }
}

/// The fields of a node opened at the indentation `indent`, from the line of
/// index `at` on, and the index of the line after them.
pub open spec fn fields_v<N: Number>(
    ls: Seq<Seq<char>>,
    at: int,
    indent: int,
    f: Fields<N::Value>,
    cap: Option<u32>,
) -> Result<(Fields<N::Value>, int), Fault>
    decreases ls.len() - at,
{
    let b = blank_v(ls, at);
    let i = indent_v(ls[b], 0);
    let body = ls[b].skip(i);
    if b < at || b >= ls.len() || i < indent + 2 {
        Ok((f, b))
    } else {
        match split_once_v(body, ':') {
            None => Err(fault_at(b, "no key in "@ + quoted(body))),
            Some((k, v)) => if trim_v(k) == "low"@ || trim_v(k) == "high"@ {
                match node_v::<N>(ls, b + 1, i, cap, f.dims) {
                    Err(e) => Err(e),
                    Ok(r) => if b < r.at <= ls.len() {
                        fields_v::<N>(ls, r.at, indent, with_branch(f, trim_v(k) == "low"@, r), cap)
                    } else {
                        arbitrary()
                    },
                }
            } else {
                match field_v::<N>(f, trim_v(k), trim_v(v), b) {
                    Ok(g) => fields_v::<N>(ls, b + 1, indent, g, cap),
                    Err(e) => Err(e),
                }
            },
        }
    }
}

/// The fields with a branch.
pub open spec fn with_branch<V>(f: Fields<V>, low: bool, r: Subtree<V>) -> Fields<V> {
    let g = Fields { entries: f.entries + r.entries, dims: r.dims, ..f };
    if low {
        Fields { low: r.id, ..g }
    } else {
        Fields { high: r.id, ..g }
    }
}

/// The node of these fields, which end before the line of index `at`.
pub open spec fn closing_v<N: Number>(
    o: Opening<N::Value>,
    f: Fields<N::Value>,
    at: int,
    cap: Option<u32>,
) -> Result<Subtree<N::Value>, Fault> {
    let id = f.id->0;
    let v = f.impact->0;
    if f.id is None {
        Err(fault_at(at, "a node carries no identifier"@))
    } else if id == 0 && cap is None {
        Err(fault_at(at, "the identifier 0 names no node"@))
    } else if cap is Some && (id == 0 || id > cap->0) {
        Err(
            fault_at(
                at,
                "the identifier "@ + decimal(id as nat) + " falls outside 1.."@ + decimal(
                    cap->0 as nat,
                ) + ", which the header declares"@,
            ),
        )
    } else if o.kind == Kind::Task {
        if f.impact is None || (f.dims is None && v.len() == 0) {
            Err(fault_at(at, "a task carries no impact"@))
        } else if f.dims is Some && v.len() != f.dims->0 {
            Err(
                fault_at(
                    at,
                    "an impact of "@ + decimal(v.len()) + " components against "@ + decimal(
                        f.dims->0,
                    ) + " declared dimensions"@,
                ),
            )
        } else if f.duration == 0 {
            Err(fault_at(at, "a task carries no duration"@))
        } else {
            Ok(
                Subtree {
                    id,
                    at,
                    entries: f.entries.push(entry_of(o, f, v)),
                    dims: Some(v.len()),
                },
            )
        }
    } else if f.low == 0 || f.high == 0 {
        Err(fault_at(at, "an internal node is missing a branch"@))
    } else {
        Ok(
            Subtree {
                id,
                at,
                entries: f.entries.push(entry_of(o, f, Seq::empty())),
                dims: f.dims,
            },
        )
    }
}

/// What is kept of a node: a task has no branches, and nothing but a task has a
/// duration.
pub open spec fn entry_of<V>(o: Opening<V>, f: Fields<V>, impact: Seq<V>) -> Entry<V> {
    let task = o.kind == Kind::Task;
    Entry {
        id: f.id->0,
        kind: o.kind,
        low: if task { 0 } else { f.low },
        high: if task { 0 } else { f.high },
        duration: if task { f.duration } else { 0 },
        prob: o.prob,
        name: o.name,
        impact,
    }
}

/// The node whose opening line is the first that is not blank from `at` on. Its
/// identifiers go up to `cap`, where the header sets one.
pub open spec fn node_v<N: Number>(
    ls: Seq<Seq<char>>,
    at: int,
    parent: int,
    cap: Option<u32>,
    dims: Option<nat>,
) -> Result<Subtree<N::Value>, Fault>
    decreases ls.len() - at,
{
    let b = blank_v(ls, at);
    match opening_v::<N>(ls, b, parent) {
        Err(e) => Err(e),
        Ok(o) => if at <= b < ls.len() {
            match fields_v::<N>(ls, b + 1, o.indent, fresh_fields(dims), cap) {
                Err(e) => Err(e),
                Ok((f, end)) => closing_v::<N>(o, f, end, cap),
            }
        } else {
            arbitrary()
        },
    }
}

/// What is read of a node ends within the file, after where it began.
pub proof fn node_advances<N: Number>(
    ls: Seq<Seq<char>>,
    at: int,
    parent: int,
    cap: Option<u32>,
    dims: Option<nat>,
)
    requires
        0 <= at <= ls.len(),
    ensures
        node_v::<N>(ls, at, parent, cap, dims) matches Ok(r) ==> at < r.at <= ls.len(),
    decreases ls.len() - at,
{
    let b = blank_v(ls, at);
    blank_bounds(ls, at);
    if opening_v::<N>(ls, b, parent) is Ok {
        let o = opening_v::<N>(ls, b, parent)->Ok_0;
        fields_advance::<N>(ls, b + 1, o.indent, fresh_fields(dims), cap);
    }
}

proof fn fields_advance<N: Number>(
    ls: Seq<Seq<char>>,
    at: int,
    indent: int,
    f: Fields<N::Value>,
    cap: Option<u32>,
)
    requires
        0 <= at <= ls.len(),
    ensures
        fields_v::<N>(ls, at, indent, f, cap) matches Ok(r) ==> at <= r.1 <= ls.len(),
    decreases ls.len() - at,
{
    let b = blank_v(ls, at);
    blank_bounds(ls, at);
    let i = indent_v(ls[b], 0);
    if b < ls.len() && i >= indent + 2 && split_once_v(ls[b].skip(i), ':') is Some {
        let (k, v) = split_once_v(ls[b].skip(i), ':')->0;
        if trim_v(k) == "low"@ || trim_v(k) == "high"@ {
            node_advances::<N>(ls, b + 1, i, cap, f.dims);
            if node_v::<N>(ls, b + 1, i, cap, f.dims) is Ok {
                let r = node_v::<N>(ls, b + 1, i, cap, f.dims)->Ok_0;
                fields_advance::<N>(ls, r.at, indent, with_branch(f, trim_v(k) == "low"@, r), cap);
            }
        } else if field_v::<N>(f, trim_v(k), trim_v(v), b) is Ok {
            let g = field_v::<N>(f, trim_v(k), trim_v(v), b)->Ok_0;
            fields_advance::<N>(ls, b + 1, indent, g, cap);
        }
    }
}

/// A dimension as far as it is known.
pub open spec fn wide(d: Option<usize>) -> Option<nat> {
    match d {
        Some(d) => Some(d as nat),
        None => None,
    }
}

/// One node as it is read.
struct Plant<N> {
    id: u32,
    kind: Kind,
    low: u32,
    high: u32,
    duration: i16,
    prob: N,
    name: String,
    impact: Vec<N>,
}

impl<N: Number> Plant<N> {
    spec fn entry(self) -> Entry<N::Value> {
        Entry {
            id: self.id,
            kind: self.kind,
            low: self.low,
            high: self.high,
            duration: self.duration,
            prob: self.prob.value(),
            name: self.name@,
            impact: vals(self.impact@),
        }
    }
}

spec fn entries_of<N: Number>(v: Seq<Plant<N>>) -> Seq<Entry<N::Value>> {
    Seq::new(v.len(), |i: int| v[i].entry())
}

struct Limb<N> {
    id: u32,
    at: usize,
    plants: Vec<Plant<N>>,
    dims: Option<usize>,
}

impl<N: Number> Limb<N> {
    spec fn branch(self) -> Subtree<N::Value> {
        Subtree {
            id: self.id,
            at: self.at as int,
            entries: entries_of(self.plants@),
            dims: wide(self.dims),
        }
    }
}

struct Form<N> {
    id: Option<u32>,
    duration: i16,
    impact: Option<Vec<N>>,
    low: u32,
    high: u32,
    plants: Vec<Plant<N>>,
    dims: Option<usize>,
}

impl<N: Number> Form<N> {
    spec fn fields(self) -> Fields<N::Value> {
        Fields {
            id: self.id,
            duration: self.duration,
            impact: match self.impact {
                Some(v) => Some(vals(v@)),
                None => None,
            },
            low: self.low,
            high: self.high,
            entries: entries_of(self.plants@),
            dims: wide(self.dims),
        }
    }
}

struct Bud<N> {
    indent: usize,
    kind: Kind,
    prob: N,
    name: String,
}

impl<N: Number> Bud<N> {
    spec fn opening(self) -> Opening<N::Value> {
        Opening {
            indent: self.indent as int,
            kind: self.kind,
            prob: self.prob.value(),
            name: self.name@,
        }
    }
}

fn skip_blank(ls: &Vec<Vec<char>>, start: usize) -> (r: usize)
    requires
        start <= ls@.len(),
    ensures
        r == blank_v(pieces(ls@), start as int),
        start <= r <= ls@.len(),
{
    let ghost ps = pieces(ls@);
    let mut at = start;
    while at < ls.len() && trim(ls[at].as_slice()).len() == 0
        invariant
            start <= at <= ls@.len(),
            ps == pieces(ls@),
            blank_v(ps, start as int) == blank_v(ps, at as int),
        decreases ls@.len() - at,
    {
        assert(ps[at as int] == ls@[at as int]@);
        at = at + 1;
    }
    proof {
        if at < ls@.len() {
            assert(ps[at as int] == ls@[at as int]@);
        }
    }
    at
}

fn read_kind(word: &str) -> (r: Option<Kind>)
    ensures
        r == kind_of(word@),
{
    if same_text(word, "task") {
        Some(Kind::Task)
    } else if same_text(word, "sequence") {
        Some(Kind::Sequence)
    } else if same_text(word, "parallel") {
        Some(Kind::Parallel)
    } else if same_text(word, "choice") {
        Some(Kind::Choice)
    } else if same_text(word, "nature") {
        Some(Kind::Nature)
    } else {
        None
    }
}

fn read_chance<N: Number>(value: &[char], at: usize) -> (r: Result<N, ParseError>)
    ensures
        match r {
            Ok(p) => chance_v::<N>(value@, at as int) == Ok::<N::Value, Fault>(p.value()),
            Err(e) => chance_v::<N>(value@, at as int) == Err::<N::Value, Fault>(e.fault()),
        },
{
    let text = text_of(value);
    match N::read(text.as_str()) {
        None => Err(err_at(at, cat2(quote(text.as_str()).as_str(), " is not a probability"))),
        Some(p) => {
            if N::zero().lt(&p) && p.lt(&N::one()) {
                Ok(p)
            } else {
                Err(
                    err_at(
                        at,
                        cat3(
                            "a nature node carries ",
                            p.show().as_str(),
                            ", and Definition 3 asks for a probability in (0,1)",
                        ),
                    ),
                )
            }
        },
    }
}

/// Reads the opening line of a node.
fn read_opening<N: Number>(ls: &Vec<Vec<char>>, at: usize, parent: usize) -> (r: Result<
    Bud<N>,
    ParseError,
>)
    requires
        at <= ls@.len(),
    ensures
        match r {
            Ok(o) => opening_v::<N>(pieces(ls@), at as int, parent as int) == Ok::<
                Opening<N::Value>,
                Fault,
            >(o.opening()) && at < ls@.len(),
            Err(e) => opening_v::<N>(pieces(ls@), at as int, parent as int) == Err::<
                Opening<N::Value>,
                Fault,
            >(e.fault()),
        },
{
    if at >= ls.len() {
        return Err(err_at(at, String::from_str("the file ends where a node was expected")));
    }
    let line = ls[at].as_slice();
    assert(pieces(ls@)[at as int] == line@);
    let (indent, body) = split_indent(line);
    if indent <= parent && parent != 0 {
        return Err(err_at(at, String::from_str("a node is indented no deeper than its parent")));
    }
    let dash = chars_of("- ");
    proof {
        reveal_strlit("- ");
    }
    let head = match strip_prefix(body, dash.as_slice()) {
        Some(h) => h,
        None => {
            let t = text_of(body);
            return Err(
                err_at(at, cat2("a node must open on `- `, found ", quote(t.as_str()).as_str())),
            );
        },
    };
    let (k, v) = match split_once(head, ':') {
        Some(p) => p,
        None => {
            let t = text_of(head);
            return Err(err_at(at, cat2("no kind in ", quote(t.as_str()).as_str())));
        },
    };
    let word = text_of(trim(k));
    let kind = match read_kind(word.as_str()) {
        Some(kind) => kind,
        None => {
            return Err(err_at(at, cat2("unknown node kind ", quote(word.as_str()).as_str())));
        },
    };
    let mut name = String::new();
    let mut prob = N::zero();
    if kind == Kind::Nature {
        match read_chance::<N>(trim(v), at) {
            Ok(p) => {
                prob = p;
            },
            Err(e) => {
                return Err(e);
            },
        }
    }
    if kind == Kind::Task {
        name = text_of(trim(v));
    }
    let bud = Bud { indent, kind, prob, name };
    assert(kind != Kind::Task ==> bud.name@ =~= Seq::empty());
    Ok(bud)
}

fn read_numbers<N: Number>(parts: &Vec<Vec<char>>, at: usize) -> (r: Result<Vec<N>, ParseError>)
    ensures
        match r {
            Ok(v) => numbers_v::<N>(pieces(parts@), 0, at as int) == Ok::<Seq<N::Value>, Fault>(
                vals(v@),
            ),
            Err(e) => numbers_v::<N>(pieces(parts@), 0, at as int) == Err::<Seq<N::Value>, Fault>(
                e.fault(),
            ),
        },
{
    let ghost ps = pieces(parts@);
    let ghost whole = numbers_v::<N>(ps, 0, at as int);
    let mut out: Vec<N> = Vec::new();
    proof {
        if whole is Ok {
            assert(vals(out@) + whole->Ok_0 =~= whole->Ok_0);
        }
    }
    let mut i: usize = 0;
    while i < parts.len()
        invariant
            i <= parts@.len(),
            ps == pieces(parts@),
            whole == numbers_v::<N>(ps, 0, at as int),
            match numbers_v::<N>(ps, i as int, at as int) {
                Ok(xs) => whole == Ok::<Seq<N::Value>, Fault>(vals(out@) + xs),
                Err(f) => whole == Err::<Seq<N::Value>, Fault>(f),
            },
        decreases parts@.len() - i,
    {
        let piece = trim(parts[i].as_slice());
        assert(ps[i as int] == parts@[i as int]@);
        i = i + 1;
        if piece.len() == 0 {
            continue ;
        }
        let text = text_of(piece);
        match N::read(text.as_str()) {
            None => {
                return Err(err_at(at, cat2(quote(text.as_str()).as_str(), " is not a number")));
            },
            Some(x) => {
                if !N::zero().le(&x) {
                    return Err(
                        err_at(
                            at,
                            cat3(
                                "the impact ",
                                x.show().as_str(),
                                " is negative, and Definition 3 asks for a vector of R>=0^k",
                            ),
                        ),
                    );
                }
                let ghost before = vals(out@);
                let ghost one = x.value();
                out.push(x);
                proof {
                    assert(vals(out@) =~= before.push(one));
                    if numbers_v::<N>(ps, i as int, at as int) is Ok {
                        let xs = numbers_v::<N>(ps, i as int, at as int)->Ok_0;
                        assert(before + (seq![one] + xs) =~= vals(out@) + xs);
                    }
                }
            },
        }
    }
    proof {
        assert(vals(out@) + Seq::<N::Value>::empty() =~= vals(out@));
    }
    Ok(out)
}

fn read_vector<N: Number>(value: &[char], at: usize) -> (r: Result<Vec<N>, ParseError>)
    ensures
        match r {
            Ok(v) => vector_v::<N>(value@, at as int) == Ok::<Seq<N::Value>, Fault>(vals(v@)),
            Err(e) => vector_v::<N>(value@, at as int) == Err::<Seq<N::Value>, Fault>(e.fault()),
        },
{
    let t = trim(value);
    let n = t.len();
    if n >= 2 && t[0] == '[' && t[n - 1] == ']' {
        let inner = slice_subrange(t, 1, n - 1);
        let parts = split(inner, ',');
        read_numbers(&parts, at)
    } else {
        let text = text_of(value);
        Err(err_at(at, cat2(quote(text.as_str()).as_str(), " is not a vector")))
    }
}

impl<N: Number> Form<N> {
    fn put(&mut self, key: &[char], value: &[char], at: usize) -> (r: Result<(), ParseError>)
        ensures
            match r {
                Ok(()) => field_v::<N>(old(self).fields(), key@, value@, at as int) == Ok::<
                    Fields<N::Value>,
                    Fault,
                >(final(self).fields()),
                Err(e) => field_v::<N>(old(self).fields(), key@, value@, at as int) == Err::<
                    Fields<N::Value>,
                    Fault,
                >(e.fault()),
            },
    {
        let k = text_of(key);
        let v = text_of(value);
        if same_text(k.as_str(), "id") {
            match natural(value, u32::MAX as u64) {
                Some(n) => {
                    self.id = Some(n as u32);
                    Ok(())
                },
                None => Err(
                    err_at(at, cat2(quote(v.as_str()).as_str(), " is not an identifier")),
                ),
            }
        } else if same_text(k.as_str(), "duration") {
            match integer(value, i32::MAX as u32) {
                None => Err(err_at(at, cat2(quote(v.as_str()).as_str(), " is not a duration"))),
                Some(d) => {
                    if d < 1 {
                        Err(
                            err_at(
                                at,
                                cat3(
                                    "a task carries the duration ",
                                    signed_of(d).as_str(),
                                    ", which is not positive",
                                ),
                            ),
                        )
                    } else if d > 127 {
                        Err(
                            err_at(
                                at,
                                cat3(
                                    "the duration ",
                                    signed_of(d).as_str(),
                                    " does not fit the state encoding, which holds a progress in an i8",
                                ),
                            ),
                        )
                    } else {
                        self.duration = d as i16;
                        Ok(())
                    }
                },
            }
        } else if same_text(k.as_str(), "impact") {
            match read_vector::<N>(value, at) {
                Ok(v) => {
                    self.impact = Some(v);
                    Ok(())
                },
                Err(e) => Err(e),
            }
        } else {
            Err(err_at(at, cat2("unknown node key ", quote(k.as_str()).as_str())))
        }
    }

    /// Closes the node.
    fn close(self, o: Bud<N>, at: usize, cap: Option<u32>) -> (r: Result<Limb<N>, ParseError>)
        ensures
            match r {
                Ok(l) => closing_v::<N>(o.opening(), self.fields(), at as int, cap) == Ok::<
                    Subtree<N::Value>,
                    Fault,
                >(l.branch()),
                Err(e) => closing_v::<N>(o.opening(), self.fields(), at as int, cap) == Err::<
                    Subtree<N::Value>,
                    Fault,
                >(e.fault()),
            },
    {
        let ghost f = self.fields();
        let id = match self.id {
            Some(id) => id,
            None => {
                return Err(err_at(at, String::from_str("a node carries no identifier")));
            },
        };
        match cap {
            None => {
                if id == 0 {
                    return Err(err_at(at, String::from_str("the identifier 0 names no node")));
                }
            },
            Some(n) => {
                if id == 0 || id > n {
                    return Err(
                        err_at(
                            at,
                            cat5(
                                "the identifier ",
                                decimal_of(id as u128).as_str(),
                                " falls outside 1..",
                                decimal_of(n as u128).as_str(),
                                ", which the header declares",
                            ),
                        ),
                    );
                }
            },
        }
        let mut dims = self.dims;
        let mut vector: Vec<N> = Vec::new();
        if o.kind == Kind::Task {
            match self.impact {
                None => {
                    return Err(err_at(at, String::from_str("a task carries no impact")));
                },
                Some(v) => {
                    vector = v;
                },
            }
            match dims {
                None => {
                    if vector.len() == 0 {
                        return Err(err_at(at, String::from_str("a task carries no impact")));
                    }
                    dims = Some(vector.len());
                },
                Some(d) => {
                    if vector.len() != d {
                        return Err(
                            err_at(
                                at,
                                cat5(
                                    "an impact of ",
                                    decimal_of(vector.len() as u128).as_str(),
                                    " components against ",
                                    decimal_of(d as u128).as_str(),
                                    " declared dimensions",
                                ),
                            ),
                        );
                    }
                },
            }
            if self.duration == 0 {
                return Err(err_at(at, String::from_str("a task carries no duration")));
            }
        } else if self.low == 0 || self.high == 0 {
            return Err(err_at(at, String::from_str("an internal node is missing a branch")));
        }
        assert(o.kind != Kind::Task ==> vals(vector@) =~= Seq::empty());
        let mut plants = self.plants;
        let task = o.kind == Kind::Task;
        let plant = Plant {
            id,
            kind: o.kind,
            low: if task { 0 } else { self.low },
            high: if task { 0 } else { self.high },
            duration: if task { self.duration } else { 0 },
            prob: o.prob,
            name: o.name,
            impact: vector,
        };
        let ghost e = plant.entry();
        plants.push(plant);
        assert(entries_of(plants@) =~= f.entries.push(e));
        Ok(Limb { id, at, plants, dims })
    }
}

/// Reads the fields of a node.
fn read_fields<N: Number>(
    ls: &Vec<Vec<char>>,
    start: usize,
    indent: usize,
    opened: Form<N>,
    cap: Option<u32>,
) -> (r: Result<(Form<N>, usize), ParseError>)
    requires
        start <= ls@.len(),
    ensures
        match r {
            Ok((f, at)) => fields_v::<N>(
                pieces(ls@),
                start as int,
                indent as int,
                opened.fields(),
                cap,
            ) == Ok::<(Fields<N::Value>, int), Fault>((f.fields(), at as int)) && start <= at
                <= ls@.len(),
            Err(e) => fields_v::<N>(
                pieces(ls@),
                start as int,
                indent as int,
                opened.fields(),
                cap,
            ) == Err::<(Fields<N::Value>, int), Fault>(e.fault()),
        },
    decreases ls@.len() - start,
{
    let ghost ps = pieces(ls@);
    let ghost whole = fields_v::<N>(ps, start as int, indent as int, opened.fields(), cap);
    let mut form = opened;
    let mut at = start;
    loop
        invariant
            start <= at <= ls@.len(),
            ps == pieces(ls@),
            whole == fields_v::<N>(ps, start as int, indent as int, opened.fields(), cap),
            whole == fields_v::<N>(ps, at as int, indent as int, form.fields(), cap),
        decreases ls@.len() - at,
    {
        let b = skip_blank(ls, at);
        if b >= ls.len() {
            return Ok((form, b));
        }
        let line = ls[b].as_slice();
        assert(ps[b as int] == line@);
        let (i, body) = split_indent(line);
        if i < indent || i - indent < 2 {
            return Ok((form, b));
        }
        let (k, v) = match split_once(body, ':') {
            Some(p) => p,
            None => {
                let t = text_of(body);
                return Err(err_at(b, cat2("no key in ", quote(t.as_str()).as_str())));
            },
        };
        let key = trim(k);
        let word = text_of(key);
        let low = same_text(word.as_str(), "low");
        if low || same_text(word.as_str(), "high") {
            proof {
                node_advances::<N>(ps, b + 1, i as int, cap, wide(form.dims));
            }
            let ghost f = form.fields();
            match read_node::<N>(ls, b + 1, i, cap, form.dims) {
                Ok(l) => {
                    let ghost br = l.branch();
                    let mut plants = l.plants;
                    form.plants.append(&mut plants);
                    form.dims = l.dims;
                    if low {
                        form.low = l.id;
                    } else {
                        form.high = l.id;
                    }
                    at = l.at;
                    proof {
                        assert(entries_of(form.plants@) =~= f.entries + br.entries);
                        assert(form.fields() == with_branch(f, low, br));
                    }
                },
                Err(e) => {
                    return Err(e);
                },
            }
        } else {
            match form.put(key, trim(v), b) {
                Ok(()) => {},
                Err(e) => {
                    return Err(e);
                },
            }
            at = b + 1;
        }
    }
}

/// Reads one node, whose opening line `- <kind>:` sits at an indentation
/// greater than `parent`.
fn read_node<N: Number>(
    ls: &Vec<Vec<char>>,
    start: usize,
    parent: usize,
    cap: Option<u32>,
    dims: Option<usize>,
) -> (r: Result<Limb<N>, ParseError>)
    requires
        start <= ls@.len(),
    ensures
        match r {
            Ok(l) => node_v::<N>(pieces(ls@), start as int, parent as int, cap, wide(dims)) == Ok::<
                Subtree<N::Value>,
                Fault,
            >(l.branch()),
            Err(e) => node_v::<N>(pieces(ls@), start as int, parent as int, cap, wide(dims)) == Err::<
                Subtree<N::Value>,
                Fault,
            >(e.fault()),
        },
    decreases ls@.len() - start,
{
    let b = skip_blank(ls, start);
    let o = match read_opening::<N>(ls, b, parent) {
        Ok(o) => o,
        Err(e) => {
            return Err(e);
        },
    };
    let form = Form {
        id: None,
        duration: 0,
        impact: None,
        low: 0,
        high: 0,
        plants: Vec::new(),
        dims,
    };
    assert(form.fields() == fresh_fields::<N::Value>(wide(dims))) by {
        assert(entries_of(form.plants@) =~= Seq::<Entry<N::Value>>::empty());
    }
    assert(ls.len() == ls@.len());
    match read_fields(ls, b + 1, o.indent, form, cap) {
        Ok((f, at)) => f.close(o, at, cap),
        Err(e) => Err(e),
    }
}

// ---------------------------------------------------------------------------
// the tree
// ---------------------------------------------------------------------------

/// The last of these nodes that carries an identifier.
pub open spec fn last_of<V>(es: Seq<Entry<V>>, id: int) -> Option<Entry<V>>
    decreases es.len(),
{
    if es.len() == 0 {
        None
    } else if es.last().id == id {
        Some(es.last())
    } else {
        last_of(es.drop_last(), id)
    }
}

/// What a tree holds.
pub struct Model<V> {
    pub nodes: Seq<Vertex>,
    pub probs: Seq<V>,
    pub rows: Seq<Seq<V>>,
    pub names: Seq<Seq<char>>,
    pub root: u32,
    pub n_nodes: u32,
    pub n_tasks: u32,
    pub k: usize,
    pub head: Head,
}

pub open spec fn vertex_of<V>(e: Option<Entry<V>>) -> Vertex {
    match e {
        Some(e) => Vertex {
            kind: e.kind,
            low: e.low as int,
            high: e.high as int,
            duration: e.duration as int,
        },
        None => Vertex { kind: Kind::Task, low: 0, high: 0, duration: 0 },
    }
}

pub open spec fn chance_of<N: Number>(e: Option<Entry<N::Value>>) -> N::Value {
    match e {
        Some(e) => e.prob,
        None => N::zero_v(),
    }
}

pub open spec fn row_of<N: Number>(e: Option<Entry<N::Value>>, k: nat) -> Seq<N::Value> {
    match e {
        Some(e) => if e.kind == Kind::Task {
            e.impact
        } else {
            zeros_v::<N>(k)
        },
        None => zeros_v::<N>(k),
    }
}

pub open spec fn name_of<V>(e: Option<Entry<V>>) -> Seq<char> {
    match e {
        Some(e) => e.name,
        None => Seq::empty(),
    }
}

/// The arena of `n` nodes and a filler.
pub open spec fn arena_v<V>(es: Seq<Entry<V>>, n: nat) -> Seq<Vertex> {
    Seq::new(n + 1, |i: int| vertex_of(last_of(es, i)))
}

/// The first identifier above `n`, from the node of index `i` on.
pub open spec fn stray_v<V>(es: Seq<Entry<V>>, n: int, i: int) -> Option<u32>
    decreases es.len() - i,
{
    if i >= es.len() {
        None
    } else if es[i].id > n {
        Some(es[i].id)
    } else {
        stray_v(es, n, i + 1)
    }
}

/// What stops the subtree of a node from holding exactly the identifiers from
/// `lo` to `hi`, numbered in order; the high branch is looked at first.
pub open spec fn window_v(g: Seq<Vertex>, id: int, lo: int, hi: int) -> Option<Seq<char>>
    decreases hi - lo + 1,
{
    let range = decimal(lo as nat) + ".."@ + decimal(hi as nat);
    if id < lo || id > hi {
        Some(
            "the identifier "@ + decimal(id as nat) + " falls outside the in-order window "@ + range,
        )
    } else if g[id].kind == Kind::Task {
        if lo != id || hi != id {
            Some("the task "@ + decimal(id as nat) + " does not fill its in-order window "@ + range)
        } else {
            None
        }
    } else {
        match window_v(g, g[id].high, id + 1, hi) {
            Some(m) => Some(m),
            None => window_v(g, g[id].low, lo, id - 1),
        }
    }
}

/// The first identifier an earlier node carries as well, from the node of index
/// `i` on.
pub open spec fn twice_v<V>(es: Seq<Entry<V>>, i: int) -> Option<u32>
    decreases es.len() - i,
{
    if i < 0 || i >= es.len() {
        None
    } else if holds(es.take(i), es[i].id as int) {
        Some(es[i].id)
    } else {
        twice_v(es, i + 1)
    }
}

pub open spec fn whole_fault(message: Seq<char>) -> Fault {
    Fault { line: 0, message }
}

/// The tree of a header and the subtree at the root. What the header declares
/// is held against the subtree; what it leaves out is counted.
pub open spec fn grown_v<N: Number>(h: Head, r: Subtree<N::Value>) -> Result<Model<N::Value>, Fault> {
    let k = r.dims->0;
    let n: nat = match h.nodes {
        Some(n) => n as nat,
        None => r.entries.len(),
    };
    let nodes = arena_v(r.entries, n);
    let t = task_ids(nodes, n as int).len();
    let declared: nat = match h.tasks {
        Some(t) => t as nat,
        None => t,
    };
    if n >= u32::MAX || (n + 1) * k > usize::MAX {
        Err(whole_fault("the tree is too large to hold"@))
    } else if stray_v(r.entries, n as int, 0) is Some {
        Err(
            whole_fault(
                "the identifier "@ + decimal(stray_v(r.entries, n as int, 0)->0 as nat)
                    + " falls outside 1.."@ + decimal(n) + ", the number of the nodes"@,
            ),
        )
    } else if t != declared {
        Err(
            whole_fault(
                "the header declares "@ + decimal(declared) + " tasks and the tree holds "@
                    + decimal(t),
            ),
        )
    } else if n != 2 * t - 1 {
        Err(
            whole_fault(
                decimal(n) + " nodes against "@ + decimal(t)
                    + " tasks, and a full binary tree has 2t-1"@,
            ),
        )
    } else if window_v(nodes, r.id as int, 1, n as int) is Some {
        Err(whole_fault(window_v(nodes, r.id as int, 1, n as int)->0))
    } else if twice_v(r.entries, 0) is Some {
        Err(
            whole_fault(
                "the identifier "@ + decimal(twice_v(r.entries, 0)->0 as nat) + " is used twice"@,
            ),
        )
    } else {
        Ok(
            Model {
                nodes,
                probs: Seq::new(n + 1, |i: int| chance_of::<N>(last_of(r.entries, i))),
                rows: Seq::new(n + 1, |i: int| row_of::<N>(last_of(r.entries, i), k)),
                names: Seq::new(n + 1, |i: int| name_of(last_of(r.entries, i))),
                root: r.id,
                n_nodes: n as u32,
                n_tasks: t as u32,
                k: k as usize,
                head: Head {
                    dimensions: Some(k as usize),
                    tasks: Some(t as u32),
                    nodes: Some(n as u32),
                    ..h
                },
            },
        )
    }
}

/// The key of an instance, which a comment on the first line carries, and the
/// index of the line after it.
pub open spec fn key_v(ls: Seq<Seq<char>>) -> (Head, int) {
    if ls.len() > 0 && has_prefix(ls[0], "# "@) {
        (Head { key: trim_v(ls[0].skip(2)), ..empty_head() }, 1)
    } else {
        (empty_head(), 0)
    }
}

/// The tree a text stands for, or what is wrong with the text.
pub open spec fn read_v<N: Number>(text: Seq<char>) -> Result<Model<N::Value>, Fault> {
    let ls = lines_v(text, 0);
    let (start, first) = key_v(ls);
    match header_v(ls, first, start) {
        Err(f) => Err(f),
        Ok((h, at)) => if h.dimensions == Some(0usize) {
            Err(fault_at(at, "the header carries no dimensions"@))
        } else {
            match node_v::<N>(ls, at, 0, h.nodes, wide(h.dimensions)) {
                Err(f) => Err(f),
                Ok(r) => grown_v::<N>(h, r),
            }
        },
    }
}

// ---------------------------------------------------------------------------
// what is read is a tree
// ---------------------------------------------------------------------------

/// One of these nodes carries the identifier.
pub open spec fn holds<V>(es: Seq<Entry<V>>, id: int) -> bool {
    exists|i: int| 0 <= i < es.len() && (#[trigger] es[i]).id == id
}

/// A node that keeps the rules of its kind, its branches among `es`.
pub open spec fn ripe<N: Number>(
    e: Entry<N::Value>,
    es: Seq<Entry<N::Value>>,
    dims: Option<nat>,
) -> bool {
    &&& e.id >= 1
    &&& e.kind == Kind::Task ==> 1 <= e.duration <= 127 && dims == Some(e.impact.len())
        && sound_row::<N>(e.impact)
    &&& e.kind == Kind::Task ==> e.low == 0 && e.high == 0
    &&& e.kind != Kind::Task ==> holds(es, e.low as int) && holds(es, e.high as int) && e.duration
        == 0
    &&& e.kind == Kind::Nature ==> N::lt_v(N::zero_v(), e.prob) && N::lt_v(e.prob, N::one_v())
    &&& e.kind != Kind::Nature ==> e.prob == N::zero_v()
}

pub open spec fn sound_row<N: Number>(v: Seq<N::Value>) -> bool {
    forall|c: int| 0 <= c < v.len() ==> N::le_v(N::zero_v(), #[trigger] v[c])
}

/// All of these nodes keep the rules of their kinds.
pub open spec fn all_ripe<N: Number>(es: Seq<Entry<N::Value>>, dims: Option<nat>) -> bool {
    forall|i: int| 0 <= i < es.len() ==> ripe::<N>(#[trigger] es[i], es, dims)
}

proof fn numbers_sound<N: Number>(ps: Seq<Seq<char>>, i: int, at: int)
    ensures
        numbers_v::<N>(ps, i, at) matches Ok(v) ==> sound_row::<N>(v),
    decreases ps.len() - i,
{
    if i < ps.len() {
        numbers_sound::<N>(ps, i + 1, at);
    }
}

proof fn holds_more<V>(a: Seq<Entry<V>>, b: Seq<Entry<V>>, id: int)
    ensures
        holds(a, id) || holds(b, id) ==> holds(a + b, id),
{
    if holds(a, id) {
        let i = choose|i: int| 0 <= i < a.len() && (#[trigger] a[i]).id == id;
        assert((a + b)[i] == a[i]);
    }
    if holds(b, id) {
        let i = choose|i: int| 0 <= i < b.len() && (#[trigger] b[i]).id == id;
        assert((a + b)[a.len() + i] == b[i]);
    }
}

proof fn ripe_more<N: Number>(
    a: Seq<Entry<N::Value>>,
    b: Seq<Entry<N::Value>>,
    dims: Option<nat>,
    whole: Option<nat>,
)
    requires
        all_ripe::<N>(a, dims),
        all_ripe::<N>(b, whole),
        dims is Some ==> whole == dims,
    ensures
        all_ripe::<N>(a + b, whole),
{
    let c = a + b;
    assert forall|i: int| 0 <= i < c.len() implies ripe::<N>(#[trigger] c[i], c, whole) by {
        if i < a.len() {
            assert(c[i] == a[i]);
            assert(ripe::<N>(a[i], a, dims));
        } else {
            assert(c[i] == b[i - a.len()]);
            assert(ripe::<N>(b[i - a.len()], b, whole));
        }
        holds_more(a, b, c[i].low as int);
        holds_more(a, b, c[i].high as int);
    }
}

/// The fields of a node on the way.
spec fn growing<N: Number>(f: Fields<N::Value>) -> bool {
    &&& all_ripe::<N>(f.entries, f.dims)
    &&& f.low != 0 ==> holds(f.entries, f.low as int) && f.dims is Some
    &&& f.dims is Some ==> f.dims->0 >= 1
    &&& f.high != 0 ==> holds(f.entries, f.high as int)
    &&& f.duration == 0 || 1 <= f.duration <= 127
    &&& f.impact is Some ==> sound_row::<N>(f.impact->0)
}


proof fn field_grows<N: Number>(f: Fields<N::Value>, key: Seq<char>, value: Seq<char>, at: int)
    requires
        growing::<N>(f),
    ensures
        field_v::<N>(f, key, value, at) matches Ok(g) ==> growing::<N>(g) && g.dims == f.dims,
{
    let t = trim_v(value);
    numbers_sound::<N>(split_v(t.subrange(1, t.len() - 1), ',', 0), 0, at);
}

proof fn branch_grows<N: Number>(f: Fields<N::Value>, low: bool, r: Subtree<N::Value>)
    requires
        growing::<N>(f),
        all_ripe::<N>(r.entries, r.dims),
        holds(r.entries, r.id as int),
        r.dims is Some && r.dims->0 >= 1,
        f.dims is Some ==> r.dims == f.dims,
    ensures
        growing::<N>(with_branch(f, low, r)),
{
    ripe_more::<N>(f.entries, r.entries, f.dims, r.dims);
    holds_more(f.entries, r.entries, r.id as int);
    holds_more(f.entries, r.entries, f.low as int);
    holds_more(f.entries, r.entries, f.high as int);
}

proof fn closing_ripe<N: Number>(
    o: Opening<N::Value>,
    f: Fields<N::Value>,
    at: int,
    cap: Option<u32>,
)
    requires
        growing::<N>(f),
        o.kind == Kind::Nature ==> N::lt_v(N::zero_v(), o.prob) && N::lt_v(o.prob, N::one_v()),
        o.kind != Kind::Nature ==> o.prob == N::zero_v(),
    ensures
        closing_v::<N>(o, f, at, cap) matches Ok(r) ==> {
            &&& all_ripe::<N>(r.entries, r.dims)
            &&& holds(r.entries, r.id as int)
            &&& r.dims is Some && r.dims->0 >= 1
            &&& f.dims is Some ==> r.dims == f.dims
        },
{
    if closing_v::<N>(o, f, at, cap) is Ok {
        let r = closing_v::<N>(o, f, at, cap)->Ok_0;
        let e = r.entries.last();
        let one = seq![e];
        assert(r.entries =~= f.entries + one);
        assert(r.entries[r.entries.len() - 1].id == r.id);
        assert forall|i: int| 0 <= i < r.entries.len() implies ripe::<N>(
            #[trigger] r.entries[i],
            r.entries,
            r.dims,
        ) by {
            holds_more(f.entries, one, r.entries[i].low as int);
            holds_more(f.entries, one, r.entries[i].high as int);
            if i < f.entries.len() {
                assert(ripe::<N>(f.entries[i], f.entries, f.dims));
            }
        }
    }
}

/// Every node that is read keeps the rules of its kind, and its branches are
/// read with it.
pub proof fn node_ripe<N: Number>(
    ls: Seq<Seq<char>>,
    at: int,
    parent: int,
    cap: Option<u32>,
    dims: Option<nat>,
)
    requires
        0 <= at <= ls.len(),
        dims is Some ==> dims->0 >= 1,
    ensures
        node_v::<N>(ls, at, parent, cap, dims) matches Ok(r) ==> {
            &&& all_ripe::<N>(r.entries, r.dims)
            &&& holds(r.entries, r.id as int)
            &&& r.dims is Some && r.dims->0 >= 1
            &&& dims is Some ==> r.dims == dims
        },
    decreases ls.len() - at,
{
    let b = blank_v(ls, at);
    blank_bounds(ls, at);
    if opening_v::<N>(ls, b, parent) is Ok {
        let o = opening_v::<N>(ls, b, parent)->Ok_0;
        fields_ripe::<N>(ls, b + 1, o.indent, fresh_fields(dims), cap);
        if fields_v::<N>(ls, b + 1, o.indent, fresh_fields(dims), cap) is Ok {
            let (f, end) = fields_v::<N>(ls, b + 1, o.indent, fresh_fields(dims), cap)->Ok_0;
            closing_ripe::<N>(o, f, end, cap);
        }
    }
}

proof fn fields_ripe<N: Number>(
    ls: Seq<Seq<char>>,
    at: int,
    indent: int,
    f: Fields<N::Value>,
    cap: Option<u32>,
)
    requires
        0 <= at <= ls.len(),
        growing::<N>(f),
    ensures
        fields_v::<N>(ls, at, indent, f, cap) matches Ok(r) ==> growing::<N>(r.0) && (f.dims is Some
            ==> r.0.dims == f.dims),
    decreases ls.len() - at,
{
    let b = blank_v(ls, at);
    blank_bounds(ls, at);
    let i = indent_v(ls[b], 0);
    if b < ls.len() && i >= indent + 2 && split_once_v(ls[b].skip(i), ':') is Some {
        let (k, v) = split_once_v(ls[b].skip(i), ':')->0;
        if trim_v(k) == "low"@ || trim_v(k) == "high"@ {
            node_advances::<N>(ls, b + 1, i, cap, f.dims);
            node_ripe::<N>(ls, b + 1, i, cap, f.dims);
            if node_v::<N>(ls, b + 1, i, cap, f.dims) is Ok {
                let r = node_v::<N>(ls, b + 1, i, cap, f.dims)->Ok_0;
                branch_grows::<N>(f, trim_v(k) == "low"@, r);
                fields_ripe::<N>(ls, r.at, indent, with_branch(f, trim_v(k) == "low"@, r), cap);
            }
        } else {
            field_grows::<N>(f, trim_v(k), trim_v(v), b);
            if field_v::<N>(f, trim_v(k), trim_v(v), b) is Ok {
                let g = field_v::<N>(f, trim_v(k), trim_v(v), b)->Ok_0;
                fields_ripe::<N>(ls, b + 1, indent, g, cap);
            }
        }
    }
}

proof fn last_is_held<V>(es: Seq<Entry<V>>, id: int)
    requires
        holds(es, id),
    ensures
        last_of(es, id) is Some,
        last_of(es, id)->0.id == id,
        exists|i: int| 0 <= i < es.len() && #[trigger] es[i] == last_of(es, id)->0,
    decreases es.len(),
{
    if es.last().id == id {
        assert(es[es.len() - 1] == es.last());
    } else {
        let i = choose|i: int| 0 <= i < es.len() && (#[trigger] es[i]).id == id;
        assert(es.drop_last()[i] == es[i]);
        last_is_held(es.drop_last(), id);
        let j = choose|j: int|
            0 <= j < es.drop_last().len() && #[trigger] es.drop_last()[j] == last_of(
                es.drop_last(),
                id,
            )->0;
        assert(es[j] == last_of(es, id)->0);
    }
}

proof fn last_ripe<N: Number>(es: Seq<Entry<N::Value>>, id: int, dims: Option<nat>)
    requires
        holds(es, id),
        all_ripe::<N>(es, dims),
    ensures
        last_of(es, id) is Some,
        last_of(es, id)->0.id == id,
        ripe::<N>(last_of(es, id)->0, es, dims),
{
    last_is_held(es, id);
    let i = choose|i: int| 0 <= i < es.len() && #[trigger] es[i] == last_of(es, id)->0;
    assert(ripe::<N>(es[i], es, dims));
}

/// Where no window is left unfilled, the subtree holds every identifier of its
/// window, numbered in order.
proof fn window_spans<N: Number>(
    es: Seq<Entry<N::Value>>,
    dims: Option<nat>,
    n: nat,
    id: int,
    lo: int,
    hi: int,
)
    requires
        all_ripe::<N>(es, dims),
        holds(es, id),
        1 <= lo,
        hi <= n,
        window_v(arena_v(es, n), id, lo, hi) is None,
    ensures
        spans(arena_v(es, n), id, lo, hi),
        forall|u: int| lo <= u <= hi ==> #[trigger] holds(es, u),
    decreases hi - lo + 1,
{
    let g = arena_v(es, n);
    last_ripe::<N>(es, id, dims);
    assert(g[id] == vertex_of(last_of(es, id)));
    if g[id].kind != Kind::Task {
        window_spans::<N>(es, dims, n, g[id].high, id + 1, hi);
        window_spans::<N>(es, dims, n, g[id].low, lo, id - 1);
        span_range(g, g[id].high, id + 1, hi);
        span_range(g, g[id].low, lo, id - 1);
    }
}

proof fn span_range(g: Seq<Vertex>, v: int, lo: int, hi: int)
    requires
        spans(g, v, lo, hi),
    ensures
        lo <= v <= hi,
{
}

/// What the header kept with a tree says.
pub open spec fn head_of(m: Meta) -> Head {
    Head {
        key: m.key@,
        nested: m.nested,
        independent: m.independent,
        process_number: m.process_number,
        dimensions: Some(m.dimensions),
        impact_names: texts(m.impact_names@),
        mode: m.mode@,
        seed: m.seed,
        tasks: Some(m.tasks),
        nodes: Some(m.nodes),
        max_duration: m.max_duration,
        xor_root_kind: m.xor_root_kind@,
        source: m.source@,
        expression: m.expression@,
    }
}

/// The index after that of the last node that carries each identifier, zero
/// where none does.
spec fn owns<V>(owner: Seq<usize>, es: Seq<Entry<V>>) -> bool {
    forall|i: int|
        0 <= i < owner.len() ==> (#[trigger] owner[i]) <= es.len() && last_of(es, i) == (
        if owner[i] == 0 {
            None
        } else {
            Some(es[owner[i] - 1])
        })
}

fn owners<N: Number>(plants: &Vec<Plant<N>>, n: u32) -> (r: Vec<usize>)
    requires
        n < u32::MAX,
        stray_v(entries_of(plants@), n as int, 0) is None,
    ensures
        r@.len() == n + 1,
        owns(r@, entries_of(plants@)),
{
    let ghost es = entries_of(plants@);
    let mut owner: Vec<usize> = Vec::new();
    let size: usize = n as usize + 1;
    for i in 0..size
        invariant
            owner@.len() == i,
            forall|j: int| 0 <= j < i ==> owner@[j] == 0,
    {
        owner.push(0);
    }
    assert(es.take(0) =~= Seq::empty());
    for j in 0..plants.len()
        invariant
            owner@.len() == n + 1,
            es == entries_of(plants@),
            stray_v(es, n as int, j as int) is None,
            owns(owner@, es.take(j as int)),
    {
        let id = plants[j].id as usize;
        assert(es[j as int].id == id);
        let ghost before = owner@;
        owner.set(id, j + 1);
        proof {
            let short = es.take(j as int);
            let long = es.take(j + 1);
            assert(long.drop_last() =~= short);
            assert(long.last() == es[j as int]);
            assert forall|i: int| 0 <= i < owner@.len() implies (#[trigger] owner@[i]) <= long.len()
                && last_of(long, i) == (if owner@[i] == 0 {
                None
            } else {
                Some(long[owner@[i] - 1])
            }) by {
                if i != id {
                    assert(owner@[i] == before[i]);
                    if before[i] > 0 {
                        assert(long[before[i] - 1] == short[before[i] - 1]);
                    }
                }
            }
        }
    }
    assert(es.take(es.len() as int) =~= es);
    owner
}

fn find_stray<N: Number>(plants: &Vec<Plant<N>>, n: u32) -> (r: Option<u32>)
    ensures
        r == stray_v(entries_of(plants@), n as int, 0),
{
    let ghost es = entries_of(plants@);
    for i in 0..plants.len()
        invariant
            es == entries_of(plants@),
            stray_v(es, n as int, 0) == stray_v(es, n as int, i as int),
    {
        assert(es[i as int] == plants@[i as int].entry());
        if plants[i].id > n {
            return Some(plants[i].id);
        }
    }
    None
}

/// The first identifier an earlier node carries as well.
fn find_twice<N: Number>(plants: &Vec<Plant<N>>, n: u32) -> (r: Option<u32>)
    requires
        n < u32::MAX,
        stray_v(entries_of(plants@), n as int, 0) is None,
    ensures
        r == twice_v(entries_of(plants@), 0),
{
    let ghost es = entries_of(plants@);
    let mut met: Vec<bool> = Vec::new();
    let size: usize = n as usize + 1;
    for i in 0..size
        invariant
            met@.len() == i,
            forall|j: int| 0 <= j < i ==> !met@[j],
    {
        met.push(false);
    }
    for i in 0..plants.len()
        invariant
            met@.len() == n + 1,
            es == entries_of(plants@),
            stray_v(es, n as int, i as int) is None,
            forall|j: int|
                0 <= j <= n ==> #[trigger] met@[j] == holds(es.take(i as int), j),
            twice_v(es, 0) == twice_v(es, i as int),
    {
        let id = plants[i].id;
        assert(es[i as int].id == id);
        if met[id as usize] {
            return Some(id);
        }
        let ghost before = met@;
        met.set(id as usize, true);
        proof {
            let (a, b) = (es.take(i as int), es.take(i + 1));
            assert(b =~= a + seq![es[i as int]]);
            assert forall|j: int| 0 <= j <= n implies #[trigger] met@[j] == holds(b, j) by {
                assert(before[j] == holds(a, j));
                holds_more(a, seq![es[i as int]], j);
                if j == id {
                    assert(seq![es[i as int]][0].id == j);
                } else if holds(b, j) {
                    let q = choose|q: int| 0 <= q < b.len() && (#[trigger] b[q]).id == j;
                    assert(a[q].id == j);
                }
            }
        }
    }
    None
}

spec fn vertices<N: Number>(nodes: Seq<Node<N>>) -> Seq<Vertex> {
    Seq::new(nodes.len(), |i: int| nodes[i].vertex())
}

fn grow_nodes<N: Number>(plants: &Vec<Plant<N>>, owner: &Vec<usize>) -> (r: Vec<Node<N>>)
    requires
        owns(owner@, entries_of(plants@)),
    ensures
        r@.len() == owner@.len(),
        forall|i: int|
            0 <= i < r@.len() ==> (#[trigger] r@[i]).vertex() == vertex_of(
                last_of(entries_of(plants@), i),
            ) && r@[i].prob.value() == chance_of::<N>(last_of(entries_of(plants@), i)),
{
    let ghost es = entries_of(plants@);
    let mut nodes: Vec<Node<N>> = Vec::new();
    for i in 0..owner.len()
        invariant
            es == entries_of(plants@),
            owns(owner@, es),
            nodes@.len() == i,
            forall|j: int|
                0 <= j < i ==> (#[trigger] nodes@[j]).vertex() == vertex_of(last_of(es, j))
                    && nodes@[j].prob.value() == chance_of::<N>(last_of(es, j)),
    {
        let o = owner[i];
        assert(owner@[i as int] <= es.len());
        if o == 0 {
            nodes.push(Node { kind: Kind::Task, low: 0, high: 0, duration: 0, prob: N::zero() });
        } else {
            let p = &plants[o - 1];
            assert(es[o - 1] == p.entry());
            nodes.push(
                Node {
                    kind: p.kind,
                    low: p.low,
                    high: p.high,
                    duration: p.duration,
                    prob: p.prob.dup(),
                },
            );
        }
    }
    nodes
}

fn grow_names<N: Number>(plants: &Vec<Plant<N>>, owner: &Vec<usize>) -> (r: Vec<String>)
    requires
        owns(owner@, entries_of(plants@)),
    ensures
        r@.len() == owner@.len(),
        forall|i: int|
            0 <= i < r@.len() ==> (#[trigger] r@[i])@ == name_of(last_of(entries_of(plants@), i)),
{
    let ghost es = entries_of(plants@);
    let mut names: Vec<String> = Vec::new();
    for i in 0..owner.len()
        invariant
            es == entries_of(plants@),
            owns(owner@, es),
            names@.len() == i,
            forall|j: int| 0 <= j < i ==> (#[trigger] names@[j])@ == name_of(last_of(es, j)),
    {
        let o = owner[i];
        assert(owner@[i as int] <= es.len());
        if o == 0 {
            let name = String::new();
            assert(name@ =~= Seq::empty());
            names.push(name);
        } else {
            assert(es[o - 1] == plants@[o - 1].entry());
            names.push(plants[o - 1].name.clone());
        }
    }
    names
}

fn grow_impacts<N: Number>(plants: &Vec<Plant<N>>, owner: &Vec<usize>, k: usize) -> (r: Vec<N>)
    requires
        owns(owner@, entries_of(plants@)),
        owner@.len() * k <= usize::MAX,
        all_ripe::<N>(entries_of(plants@), Some(k as nat)),
    ensures
        r@.len() == owner@.len() * k,
        forall|i: int, c: int|
            0 <= i < owner@.len() && 0 <= c < k ==> (#[trigger] r@[i * k + c]).value() == row_of::<
                N,
            >(last_of(entries_of(plants@), i), k as nat)[c],
{
    let ghost es = entries_of(plants@);
    let mut out: Vec<N> = Vec::new();
    proof {
        let kk = k as int;
        assert(0 * kk == 0) by (nonlinear_arith);
    }
    for i in 0..owner.len()
        invariant
            es == entries_of(plants@),
            owns(owner@, es),
            all_ripe::<N>(es, Some(k as nat)),
            out@.len() == i * k,
            forall|j: int, c: int|
                0 <= j < i && 0 <= c < k ==> (#[trigger] out@[j * k + c]).value() == row_of::<N>(
                    last_of(es, j),
                    k as nat,
                )[c],
    {
        let o = owner[i];
        assert(owner@[i as int] <= es.len());
        proof {
            if o > 0 {
                assert(es[o - 1] == plants@[o - 1].entry());
                assert(ripe::<N>(es[o - 1], es, Some(k as nat)));
            }
        }
        let mut row: Vec<N> = if o > 0 && plants[o - 1].kind == Kind::Task {
            dup_vec(&plants[o - 1].impact)
        } else {
            zeros(k)
        };
        let ghost wanted = row_of::<N>(last_of(es, i as int), k as nat);
        let ghost added = row@;
        proof {
            assert(vals(row@) =~= wanted);
            assert(row@.len() == k);
        }
        let ghost before = out@;
        out.append(&mut row);
        proof {
            let (a, kk) = (i as int, k as int);
            assert((a + 1) * kk == a * kk + kk) by (nonlinear_arith);
            assert forall|j: int, c: int| 0 <= j < i + 1 && 0 <= c < k implies (
            #[trigger] out@[j * k + c]).value() == row_of::<N>(last_of(es, j), k as nat)[c] by {
                if j < i {
                    assert(j * kk + c < a * kk && 0 <= j * kk) by (nonlinear_arith)
                        requires
                            0 <= j < a,
                            0 <= c < kk,
                    ;
                    assert(out@[j * k + c] == before[j * k + c]);
                } else {
                    assert(out@[j * k + c] == added[c]);
                    assert(vals(added)[c] == wanted[c]);
                }
            }
        }
    }
    out
}

/// Whether the subtree of a node fills its window, and what is wrong if not.
fn check_window<N: Number>(nodes: &Vec<Node<N>>, id: u32, lo: u32, hi: u32) -> (r: Option<String>)
    requires
        1 <= lo,
        hi < nodes@.len(),
        hi < u32::MAX,
    ensures
        match r {
            Some(m) => window_v(vertices(nodes@), id as int, lo as int, hi as int) == Some(m@),
            None => window_v(vertices(nodes@), id as int, lo as int, hi as int) is None,
        },
    decreases hi - lo + 1,
{
    let ghost g = vertices(nodes@);
    if id < lo || id > hi {
        let range = cat3(decimal_of(lo as u128).as_str(), "..", decimal_of(hi as u128).as_str());
        let mut m = cat3(
            "the identifier ",
            decimal_of(id as u128).as_str(),
            " falls outside the in-order window ",
        );
        m.append(range.as_str());
        return Some(m);
    }
    let n = &nodes[id as usize];
    assert(g[id as int] == n.vertex());
    if n.kind == Kind::Task {
        if lo != id || hi != id {
            let range = cat3(
                decimal_of(lo as u128).as_str(),
                "..",
                decimal_of(hi as u128).as_str(),
            );
            let mut m = cat3(
                "the task ",
                decimal_of(id as u128).as_str(),
                " does not fill its in-order window ",
            );
            m.append(range.as_str());
            Some(m)
        } else {
            None
        }
    } else {
        match check_window(nodes, n.high, id + 1, hi) {
            Some(m) => Some(m),
            None => check_window(nodes, n.low, lo, id - 1),
        }
    }
}

/// The identifiers of the tasks and those of the choice and nature nodes, each
/// list in increasing order.
fn sort_kinds<N: Number>(nodes: &Vec<Node<N>>, n: u32) -> (r: (Vec<u32>, Vec<u32>))
    requires
        nodes@.len() == n + 1,
        n < u32::MAX,
    ensures
        r.0@ == task_ids(vertices(nodes@), n as int),
        r.1@ == xor_ids(vertices(nodes@), n as int),
{
    let ghost g = vertices(nodes@);
    let mut tasks: Vec<u32> = Vec::new();
    let mut xors: Vec<u32> = Vec::new();
    for id in 1..n + 1
        invariant
            nodes@.len() == n + 1,
            n < u32::MAX,
            g == vertices(nodes@),
            tasks@ == task_ids(g, id - 1),
            xors@ == xor_ids(g, id - 1),
    {
        assert(g[id as int] == nodes@[id as int].vertex());
        let kind = nodes[id as usize].kind;
        if kind == Kind::Task {
            tasks.push(id);
        } else if kind.is_xor() {
            xors.push(id);
        }
    }
    (tasks, xors)
}

fn whole_err(message: String) -> (r: ParseError)
    ensures
        r.fault() == whole_fault(message@),
{
    ParseError { line: 0, message }
}

/// Grows the tree of a header and the subtree at the root.
#[verifier::rlimit(40)]
fn grow<N: Number>(header: Header, limb: Limb<N>) -> (r: Result<Tree<N>, ParseError>)
    requires
        all_ripe::<N>(limb.branch().entries, limb.branch().dims),
        holds(limb.branch().entries, limb.id as int),
        limb.dims is Some,
        limb.dims->0 >= 1,
    ensures
        match r {
            Ok(t) => grown_v::<N>(header.head(), limb.branch()) == Ok::<Model<N::Value>, Fault>(
                t.model(),
            ) && t.wf(),
            Err(e) => grown_v::<N>(header.head(), limb.branch()) == Err::<Model<N::Value>, Fault>(
                e.fault(),
            ),
        },
{
    let ghost es = limb.branch().entries;
    let k = match limb.dims {
        Some(k) => k,
        None => 0,
    };
    let wide_n: usize = match header.nodes {
        Some(n) => n as usize,
        None => limb.plants.len(),
    };
    if wide_n >= u32::MAX as usize {
        return Err(whole_err(String::from_str("the tree is too large to hold")));
    }
    let n = wide_n as u32;
    let size = (wide_n + 1).checked_mul(k);
    if size.is_none() {
        return Err(whole_err(String::from_str("the tree is too large to hold")));
    }
    match find_stray(&limb.plants, n) {
        Some(id) => {
            return Err(
                whole_err(
                    cat5(
                        "the identifier ",
                        decimal_of(id as u128).as_str(),
                        " falls outside 1..",
                        decimal_of(n as u128).as_str(),
                        ", the number of the nodes",
                    ),
                ),
            );
        },
        None => {},
    }
    let owner = owners(&limb.plants, n);
    let nodes = grow_nodes(&limb.plants, &owner);
    let ghost g = arena_v(es, n as nat);
    assert(vertices(nodes@) =~= g);
    let (tasks, xors) = sort_kinds(&nodes, n);
    proof {
        task_ids_range(g, n as int);
    }
    let t = tasks.len();
    let declared: usize = match header.tasks {
        Some(t) => t as usize,
        None => t,
    };
    if t != declared {
        let mut m = cat3(
            "the header declares ",
            decimal_of(declared as u128).as_str(),
            " tasks and the tree holds ",
        );
        m.append(decimal_of(t as u128).as_str());
        return Err(whole_err(m));
    }
    if n as u128 + 1 != 2 * (t as u128) {
        let mut m = cat3(
            decimal_of(n as u128).as_str(),
            " nodes against ",
            decimal_of(t as u128).as_str(),
        );
        m.append(" tasks, and a full binary tree has 2t-1");
        return Err(whole_err(m));
    }
    match check_window(&nodes, limb.id, 1, n) {
        Some(m) => {
            return Err(whole_err(m));
        },
        None => {},
    }
    proof {
        window_spans::<N>(es, Some(k as nat), n as nat, limb.id as int, 1, n as int);
    }
    match find_twice(&limb.plants, n) {
        Some(id) => {
            return Err(
                whole_err(
                    cat3("the identifier ", decimal_of(id as u128).as_str(), " is used twice"),
                ),
            );
        },
        None => {},
    }
    let impacts = grow_impacts(&limb.plants, &owner, k);
    let task_names = grow_names(&limb.plants, &owner);
    let mut meta = header.meta;
    meta.dimensions = k;
    meta.tasks = t as u32;
    meta.nodes = n;
    let tree = Tree {
        nodes,
        root: limb.id,
        n_nodes: n,
        n_tasks: t as u32,
        k,
        impacts,
        task_names,
        tasks,
        xors,
        meta,
    };
    proof {
        let want = grown_v::<N>(header.head(), limb.branch())->Ok_0;
        let m = tree.model();
        assert(tree.net().nodes =~= g);
        assert(m.nodes =~= want.nodes);
        assert(m.probs =~= want.probs);
        assert forall|i: int| 0 <= i < m.rows.len() implies m.rows[i] == want.rows[i] by {
            if holds(es, i) {
                last_ripe::<N>(es, i, Some(k as nat));
            }
            if last_of(es, i) is Some {
                last_held(es, i);
            }
            assert(m.rows[i] =~= want.rows[i]);
        }
        assert(m.rows =~= want.rows);
        assert(m.names =~= want.names);
        assert forall|i: int|
            1 <= i <= n && (#[trigger] tree.nodes@[i]).kind == Kind::Nature implies N::lt_v(
            N::zero_v(),
            tree.nodes@[i].prob.value(),
        ) && N::lt_v(tree.nodes@[i].prob.value(), N::one_v()) by {
            assert(holds(es, i));
            last_ripe::<N>(es, i, Some(k as nat));
            assert(tree.nodes@[i].vertex() == vertex_of(last_of(es, i)));
        }
        assert forall|i: int| 1 <= i <= n implies tidy(#[trigger] tree.nodes@[i]) by {
            assert(holds(es, i));
            last_ripe::<N>(es, i, Some(k as nat));
            assert(tree.nodes@[i].vertex() == vertex_of(last_of(es, i)));
            assert(tree.nodes@[i].prob.value() == chance_of::<N>(last_of(es, i)));
        }
        assert forall|i: int, c: int|
            1 <= i <= n && tree.nodes@[i].kind == Kind::Task && 0 <= c < k implies N::le_v(
            N::zero_v(),
            #[trigger] tree.impact_v(i)[c],
        ) by {
            assert(holds(es, i));
            last_ripe::<N>(es, i, Some(k as nat));
            assert(tree.nodes@[i].vertex() == vertex_of(last_of(es, i)));
            assert(m.rows[i] == want.rows[i]);
        }
    }
    Ok(tree)
}

proof fn last_held<V>(es: Seq<Entry<V>>, id: int)
    requires
        last_of(es, id) is Some,
    ensures
        holds(es, id),
    decreases es.len(),
{
    if es.last().id == id {
        assert(es[es.len() - 1].id == id);
    } else {
        last_held(es.drop_last(), id);
        let i = choose|i: int|
            0 <= i < es.drop_last().len() && (#[trigger] es.drop_last()[i]).id == id;
        assert(es[i].id == id);
    }
}

impl<N: Number> Tree<N> {
    /// What the tree holds.
    pub open spec fn model(&self) -> Model<N::Value> {
        Model {
            nodes: self.net().nodes,
            probs: Seq::new(self.nodes@.len(), |i: int| self.prob_v(i)),
            rows: Seq::new(self.nodes@.len(), |i: int| self.impact_v(i)),
            names: texts(self.task_names@),
            root: self.root,
            n_nodes: self.n_nodes,
            n_tasks: self.n_tasks,
            k: self.k,
            head: head_of(self.meta),
        }
    }

    /// Reads an instance file.
    pub fn parse(text: &str) -> (r: Result<Tree<N>, ParseError>)
        ensures
            match r {
                Ok(t) => read_v::<N>(text@) == Ok::<Model<N::Value>, Fault>(t.model()) && t.wf(),
                Err(e) => read_v::<N>(text@) == Err::<Model<N::Value>, Fault>(e.fault()),
            },
    {
        let all = chars_of(text);
        let ls = lines(all.as_slice());
        let ghost ps = lines_v(text@, 0);
        assert(pieces(ls@) == ps);
        let mut header = Header {
            meta: Meta {
                key: String::new(),
                nested: 0,
                independent: 0,
                process_number: 0,
                dimensions: 0,
                impact_names: Vec::new(),
                mode: String::new(),
                seed: 0,
                tasks: 0,
                nodes: 0,
                max_duration: 0,
                xor_root_kind: String::new(),
                source: String::new(),
                expression: String::new(),
            },
            dimensions: None,
            tasks: None,
            nodes: None,
        };
        proof {
            reveal_strlit("# ");
            let h = header.head();
            let e = empty_head();
            assert(h.key =~= e.key);
            assert(h.impact_names =~= e.impact_names);
            assert(h.mode =~= e.mode);
            assert(h.xor_root_kind =~= e.xor_root_kind);
            assert(h.source =~= e.source);
            assert(h.expression =~= e.expression);
        }
        let mut first: usize = 0;
        if ls.len() > 0 {
            let sharp = chars_of("# ");
            assert(ps[0] == ls@[0]@);
            match strip_prefix(ls[0].as_slice(), sharp.as_slice()) {
                Some(rest) => {
                    header.meta.key = text_of(trim(rest));
                    first = 1;
                },
                None => {},
            }
        }
        assert((header.head(), first as int) == key_v(ps));
        let at = match header.read(&ls, first) {
            Ok(at) => at,
            Err(e) => {
                return Err(e);
            },
        };
        if let Some(k) = header.dimensions {
            if k == 0 {
                return Err(err_at(at, String::from_str("the header carries no dimensions")));
            }
        }
        proof {
            node_ripe::<N>(ps, at as int, 0, header.nodes, wide(header.dimensions));
        }
        match read_node::<N>(&ls, at, 0, header.nodes, header.dimensions) {
            Ok(limb) => {
                grow(header, limb)
            },
            Err(e) => Err(e),
        }
    }
}

} // verus!
