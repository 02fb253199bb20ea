//! The words of a command line, and the settings they choose.

use vstd::prelude::*;
use vstd::string::*;
use crate::config::{ablation_of, selection_of, steal_of, Ablation, Config, Selection, Steal};
use crate::num::{vals, Number};
use crate::text::{cat2, cat3, chars_of, join, joined, quote, quoted, same_text, text_of, texts};
use crate::words::{has_prefix, natural, natural_v, split_once, split_once_v, strip_prefix};

verus! {

/// A command line: the words that stand alone, and the flags with their values.
pub struct Args {
    pub positional: Vec<String>,
    pub flags: Vec<(String, String)>,
}

/// What a command line says.
pub struct Line {
    pub positional: Seq<Seq<char>>,
    pub flags: Seq<(Seq<char>, Seq<char>)>,
}

pub open spec fn flag_pairs(v: Seq<(String, String)>) -> Seq<(Seq<char>, Seq<char>)> {
    Seq::new(v.len(), |i: int| (v[i].0@, v[i].1@))
}

/// The words from the one of index `i` on, after what was read of a line:
/// `--name=value` and `--name value` are flags, every other word stands alone.
pub open spec fn args_v(words: Seq<Seq<char>>, i: int, line: Line) -> Result<Line, Seq<char>>
    decreases words.len() - i,
{
    if i >= words.len() {
        Ok(line)
    } else if has_prefix(words[i], "--"@) {
        let name = words[i].skip(2);
        match split_once_v(name, '=') {
            Some(f) => args_v(words, i + 1, Line { flags: line.flags.push(f), ..line }),
            None => if i + 1 >= words.len() {
                Err("--"@ + name + " wants a value"@)
            } else {
                args_v(
                    words,
                    i + 2,
                    Line { flags: line.flags.push((name, words[i + 1])), ..line },
                )
            },
        }
    } else {
        args_v(words, i + 1, Line { positional: line.positional.push(words[i]), ..line })
    }
}

/// The value of the first flag of a name, from the one of index `i` on.
pub open spec fn flag_v(flags: Seq<(Seq<char>, Seq<char>)>, name: Seq<char>, i: int) -> Option<Seq<char>>
    decreases flags.len() - i,
{
    if i >= flags.len() {
        None
    } else if flags[i].0 == name {
        Some(flags[i].1)
    } else {
        flag_v(flags, name, i + 1)
    }
}

impl Args {
    pub open spec fn line(self) -> Line {
        Line { positional: texts(self.positional@), flags: flag_pairs(self.flags@) }
    }

    /// The value a flag was given.
    pub open spec fn given(self, name: Seq<char>) -> Option<Seq<char>> {
        flag_v(self.line().flags, name, 0)
    }

    /// The value a flag was given, the first where there are several.
    pub fn flag(&self, name: &str) -> (r: Option<&str>)
        ensures
            match r {
                Some(v) => self.given(name@) == Some(v@),
                None => self.given(name@) is None,
            },
    {
        let ghost fs = flag_pairs(self.flags@);
        for i in 0..self.flags.len()
            invariant
                fs == flag_pairs(self.flags@),
                flag_v(fs, name@, 0) == flag_v(fs, name@, i as int),
        {
            assert(fs[i as int] == (self.flags@[i as int].0@, self.flags@[i as int].1@));
            if same_text(self.flags[i].0.as_str(), name) {
                return Some(self.flags[i].1.as_str());
            }
        }
        None
    }
}

/// Reads a command line.
pub fn parse_args(words: &Vec<String>) -> (r: Result<Args, String>)
    ensures
        match r {
            Ok(a) => args_v(
                texts(words@),
                0,
                (Line { positional: Seq::empty(), flags: Seq::empty() }),
            ) == Ok::<Line, Seq<char>>(a.line()),
            Err(e) => args_v(
                texts(words@),
                0,
                (Line { positional: Seq::empty(), flags: Seq::empty() }),
            ) == Err::<Line, Seq<char>>(e@),
        },
{
    let ghost ws = texts(words@);
    let ghost start = Line { positional: Seq::empty(), flags: Seq::empty() };
    let mut out = Args { positional: Vec::new(), flags: Vec::new() };
    proof {
        assert(out.line().positional =~= start.positional);
        assert(out.line().flags =~= start.flags);
    }
    let dashes = chars_of("--");
    proof {
        reveal_strlit("--");
    }
    let mut i: usize = 0;
    while i < words.len()
        invariant
            i <= words@.len(),
            ws == texts(words@),
            dashes@ == "--"@,
            "--"@.len() == 2,
            start == (Line { positional: Seq::empty(), flags: Seq::empty() }),
            args_v(ws, 0, start) == args_v(ws, i as int, out.line()),
        decreases words@.len() - i,
    {
        let word = chars_of(words[i].as_str());
        assert(ws[i as int] == word@);
        let ghost before = out.line();
        match strip_prefix(word.as_slice(), dashes.as_slice()) {
            Some(name) => match split_once(name, '=') {
                Some((n, v)) => {
                    out.flags.push((text_of(n), text_of(v)));
                    assert(out.line().flags =~= before.flags.push((n@, v@)));
                    i = i + 1;
                },
                None => {
                    let n = text_of(name);
                    if i + 1 >= words.len() {
                        return Err(cat3("--", n.as_str(), " wants a value"));
                    }
                    let ghost f = (n@, ws[i + 1]);
                    out.flags.push((n, words[i + 1].clone()));
                    assert(out.line().flags =~= before.flags.push(f));
                    i = i + 2;
                },
            },
            None => {
                out.positional.push(words[i].clone());
                assert(out.line().positional =~= before.positional.push(ws[i as int]));
                i = i + 1;
            },
        }
    }
    Ok(out)
}

/// A whole number a flag gives, which has to be one no larger than `max`, and
/// `default` where there is no flag.
pub open spec fn number_given(value: Option<Seq<char>>, max: nat, default: nat) -> Option<nat> {
    match value {
        Some(v) => natural_v(v, max),
        None => Some(default),
    }
}

fn number_of(value: Option<&str>, max: u64, default: u64) -> (r: Option<u64>)
    requires
        default <= max,
    ensures
        match r {
            Some(n) => number_given(shown(value), max as nat, default as nat) == Some(n as nat) && n
                <= max,
            None => number_given(shown(value), max as nat, default as nat) is None,
        },
{
    match value {
        Some(v) => natural(chars_of(v).as_slice(), max),
        None => Some(default),
    }
}

/// The text of a flag.
pub open spec fn shown(value: Option<&str>) -> Option<Seq<char>> {
    match value {
        Some(v) => Some(v@),
        None => None,
    }
}

/// The slack a flag gives, which has to be a number, and zero where there is no
/// flag.
pub open spec fn slack_given<N: Number>(value: Option<Seq<char>>) -> Option<N::Value> {
    match value {
        Some(v) => N::read_v(v),
        None => Some(N::zero_v()),
    }
}

/// The settings a command line chooses.
pub struct Settings<V> {
    pub threshold: Seq<V>,
    pub record_strategy: bool,
    pub steal: Steal,
    pub epsilon: V,
    pub workers: nat,
    pub ablation: Ablation,
    pub selection: Selection,
    pub seed: nat,
    pub timeout: Option<u128>,
}

/// The seed of the draw where none is given.
pub const DEFAULT_SEED: u64 = 20260816;

/// The settings of a search. A word that names no setting is an error, and so is
/// a number that cannot be read.
pub open spec fn settings_v<N: Number>(a: Args, threshold: Seq<N::Value>, timeout: Option<u128>) -> Result<
    Settings<N::Value>,
    Seq<char>,
> {
    let steal = a.given("steal"@);
    let ablation = a.given("ablation"@);
    let selection = a.given("selection"@);
    let slack = slack_given::<N>(a.given("epsilon"@));
    let workers = number_given(a.given("workers"@), usize::MAX as nat, 1);
    let seed = number_given(a.given("seed"@), u64::MAX as nat, DEFAULT_SEED as nat);
    if steal is Some && steal_of(steal->0) is None {
        Err("--steal wants ring or any"@)
    } else if ablation is Some && ablation_of(ablation->0) is None {
        Err("--ablation wants both, accept, reject or none"@)
    } else if selection is Some && selection_of(selection->0) is None {
        Err("--selection wants weighted, uniform or oldest"@)
    } else if slack is None {
        Err("--epsilon wants a number"@)
    } else if workers is None {
        Err("--workers wants a number"@)
    } else if seed is None {
        Err("--seed wants a number"@)
    } else {
        Ok(
            Settings {
                threshold,
                record_strategy: a.given("print-strategy"@) is Some || a.given("print-size"@) is Some,
                steal: if steal is Some {
                    steal_of(steal->0)->0
                } else {
                    Steal::Ring
                },
                epsilon: slack->0,
                workers: workers->0,
                ablation: if ablation is Some {
                    ablation_of(ablation->0)->0
                } else {
                    Ablation::Both
                },
                selection: if selection is Some {
                    selection_of(selection->0)->0
                } else {
                    Selection::Weighted
                },
                seed: seed->0,
                timeout,
            },
        )
    }
}

pub open spec fn settings_of<N: Number>(c: Config<N>) -> Settings<N::Value> {
    Settings {
        threshold: vals(c.threshold@),
        record_strategy: c.record_strategy,
        steal: c.steal,
        epsilon: c.epsilon.value(),
        workers: c.workers as nat,
        ablation: c.ablation,
        selection: c.selection,
        seed: c.seed as nat,
        timeout: c.timeout,
    }
}

/// The configuration of a search.
pub fn configure<N: Number>(args: &Args, threshold: Vec<N>, timeout: Option<u128>) -> (r: Result<
    Config<N>,
    String,
>)
    ensures
        match r {
            Ok(c) => settings_v::<N>(*args, vals(threshold@), timeout) == Ok::<
                Settings<N::Value>,
                Seq<char>,
            >(settings_of(c)),
            Err(e) => settings_v::<N>(*args, vals(threshold@), timeout) == Err::<
                Settings<N::Value>,
                Seq<char>,
            >(e@),
        },
{
    let steal = match args.flag("steal") {
        None => Steal::Ring,
        Some(v) => match Steal::parse(v) {
            Some(s) => s,
            None => {
                return Err(String::from_str("--steal wants ring or any"));
            },
        },
    };
    let ablation = match args.flag("ablation") {
        None => Ablation::Both,
        Some(v) => match Ablation::parse(v) {
            Some(a) => a,
            None => {
                return Err(String::from_str("--ablation wants both, accept, reject or none"));
            },
        },
    };
    let selection = match args.flag("selection") {
        None => Selection::Weighted,
        Some(v) => match Selection::parse(v) {
            Some(s) => s,
            None => {
                return Err(String::from_str("--selection wants weighted, uniform or oldest"));
            },
        },
    };
    let epsilon = match args.flag("epsilon") {
        Some(v) => match N::read(v) {
            Some(x) => x,
            None => {
                return Err(String::from_str("--epsilon wants a number"));
            },
        },
        None => N::zero(),
    };
    let workers = match number_of(args.flag("workers"), usize::MAX as u64, 1) {
        Some(n) => n as usize,
        None => {
            return Err(String::from_str("--workers wants a number"));
        },
    };
    let seed = match number_of(args.flag("seed"), u64::MAX, DEFAULT_SEED) {
        Some(n) => n,
        None => {
            return Err(String::from_str("--seed wants a number"));
        },
    };
    let record_strategy = args.flag("print-strategy").is_some() || args.flag("print-size").is_some();
    Ok(
        Config {
            threshold,
            record_strategy,
            steal,
            epsilon,
            workers,
            ablation,
            selection,
            seed,
            timeout,
        },
    )
}

/// The cap a pass over the states keeps to: what the flag gives, which has to be a
/// number, and `default` where there is no flag.
pub fn cap_wanted(args: &Args, default: usize) -> (r: Result<usize, String>)
    ensures
        match r {
            Ok(n) => number_given(args.given("max-states"@), usize::MAX as nat, default as nat)
                == Some(n as nat),
            Err(e) => e@ == "--max-states wants a number"@ && number_given(
                args.given("max-states"@),
                usize::MAX as nat,
                default as nat,
            ) is None,
        },
{
    match number_of(args.flag("max-states"), usize::MAX as u64, default as u64) {
        Some(n) => Ok(n as usize),
        None => Err(String::from_str("--max-states wants a number")),
    }
}

/// Whether a model records the history of its decisions.
pub open spec fn history_v(value: Option<Seq<char>>) -> Result<bool, Seq<char>> {
    match value {
        None => Ok(true),
        Some(v) => if v == "true"@ {
            Ok(true)
        } else if v == "false"@ {
            Ok(false)
        } else {
            Err("--encode-history wants true or false, found "@ + quoted(v))
        },
    }
}

/// Whether a model records the history of its decisions, which it does by
/// default.
pub fn encode_history(args: &Args) -> (r: Result<bool, String>)
    ensures
        match r {
            Ok(b) => history_v(args.given("encode-history"@)) == Ok::<bool, Seq<char>>(b),
            Err(e) => history_v(args.given("encode-history"@)) == Err::<bool, Seq<char>>(e@),
        },
{
    match args.flag("encode-history") {
        None => Ok(true),
        Some(v) => if same_text(v, "true") {
            Ok(true)
        } else if same_text(v, "false") {
            Ok(false)
        } else {
            Err(cat2("--encode-history wants true or false, found ", quote(v).as_str()))
        },
    }
}

/// Where a process to be parsed stands.
pub enum Source {
    File(String),
    Inline(String),
}

/// Where a process to be parsed stands: in the file a flag names, or in the
/// words of the line, but not in both.
pub fn process_source(args: &Args) -> (r: Result<Source, String>)
    ensures
        match r {
            Ok(Source::File(f)) => args.given("file"@) == Some(f@) && args.positional@.len() == 0,
            Ok(Source::Inline(t)) => args.given("file"@) is None && args.positional@.len() > 0 && t@
                == joined(texts(args.positional@), " "@),
            Err(e) => e@
                == "give the process inline or through --file, not both and not neither"@ && (
            args.given("file"@) is Some) == (args.positional@.len() > 0),
        },
{
    let inline = args.positional.len() > 0;
    match args.flag("file") {
        Some(f) => {
            if !inline {
                return Ok(Source::File(String::from_str(f)));
            }
        },
        None => {
            if inline {
                return Ok(Source::Inline(join(&args.positional, " ")));
            }
        },
    }
    Err(String::from_str("give the process inline or through --file, not both and not neither"))
}

} // verus!
