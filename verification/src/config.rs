//! What a search is told: the budget, which tests it reads, how it elects, where
//! an idle worker looks for work.

use vstd::prelude::*;
use crate::frontier::{within, Tests};
use crate::num::{vals, Number};
use crate::text::same_text;

verus! {


/// Which of the two tests is read on a frontier that still has open histories.
/// A frontier whose histories are all final is tested by both whatever the
/// setting: there the two sums coincide with the value itself, so one of the two
/// answers, and the search would otherwise never stop.
#[derive(Clone, Copy, PartialEq, Eq, Structural, Debug)]
pub enum Ablation {
    Both,
    AcceptOnly,
    RejectOnly,
    Neither,
}

/// The setting a word names.
pub open spec fn ablation_of(s: Seq<char>) -> Option<Ablation> {
    if s == "both"@ {
        Some(Ablation::Both)
    } else if s == "accept"@ {
        Some(Ablation::AcceptOnly)
    } else if s == "reject"@ {
        Some(Ablation::RejectOnly)
    } else if s == "none"@ {
        Some(Ablation::Neither)
    } else {
        None
    }
}

impl Ablation {
    pub open spec fn accepts(self) -> bool {
        self == Ablation::Both || self == Ablation::AcceptOnly
    }

    pub open spec fn rejects(self) -> bool {
        self == Ablation::Both || self == Ablation::RejectOnly
    }

    pub fn accept_early(self) -> (r: bool)
        ensures
            r == self.accepts(),
    {
        matches!(self, Ablation::Both | Ablation::AcceptOnly)
    }

    pub fn reject_early(self) -> (r: bool)
        ensures
            r == self.rejects(),
    {
        matches!(self, Ablation::Both | Ablation::RejectOnly)
    }

    pub fn parse(s: &str) -> (r: Option<Ablation>)
        ensures
            r == ablation_of(s@),
    {
        if same_text(s, "both") {
            Some(Ablation::Both)
        } else if same_text(s, "accept") {
            Some(Ablation::AcceptOnly)
        } else if same_text(s, "reject") {
            Some(Ablation::RejectOnly)
        } else if same_text(s, "none") {
            Some(Ablation::Neither)
        } else {
            None
        }
    }
}

/// How the open history to expand is elected.
#[derive(Clone, Copy, PartialEq, Eq, Structural, Debug)]
pub enum Selection {
    /// Rescale the probabilities of the open histories to one and draw.
    Weighted,
    /// Draw uniformly among them, ignoring the probabilities.
    Uniform,
    /// The open history of least identifier, which is the one created first: no
    /// draw at all, and the only setting under which several workers give a
    /// reproducible run.
    Oldest,
}

/// The setting a word names.
pub open spec fn selection_of(s: Seq<char>) -> Option<Selection> {
    if s == "weighted"@ {
        Some(Selection::Weighted)
    } else if s == "uniform"@ {
        Some(Selection::Uniform)
    } else if s == "oldest"@ {
        Some(Selection::Oldest)
    } else {
        None
    }
}

impl Selection {
    pub fn parse(s: &str) -> (r: Option<Selection>)
        ensures
            r == selection_of(s@),
    {
        if same_text(s, "weighted") {
            Some(Selection::Weighted)
        } else if same_text(s, "uniform") {
            Some(Selection::Uniform)
        } else if same_text(s, "oldest") {
            Some(Selection::Oldest)
        } else {
            None
        }
    }
}

/// Where a worker with an empty stack looks for work.
#[derive(Clone, Copy, PartialEq, Eq, Structural, Debug)]
pub enum Steal {
    /// From the stack of its predecessor in the ring.
    Ring,
    /// From any other stack, scanning from its predecessor backwards. The ring
    /// propagates work one hop at a time, and the difference between the two is
    /// worth a number rather than an opinion.
    Any,
}

/// The setting a word names.
pub open spec fn steal_of(s: Seq<char>) -> Option<Steal> {
    if s == "ring"@ {
        Some(Steal::Ring)
    } else if s == "any"@ {
        Some(Steal::Any)
    } else {
        None
    }
}

impl Steal {
    pub fn parse(s: &str) -> (r: Option<Steal>)
        ensures
            r == steal_of(s@),
    {
        if same_text(s, "ring") {
            Some(Steal::Ring)
        } else if same_text(s, "any") {
            Some(Steal::Any)
        } else {
            None
        }
    }
}

pub struct Config<N> {
    pub threshold: Vec<N>,
    /// Whether to keep the decisions taken, so that the strategy can be
    /// returned. When the caller only wants the answer there is no reason to
    /// build the chain: it costs an allocation and a shared counter per
    /// expansion and is thrown away.
    pub record_strategy: bool,
    pub steal: Steal,
    /// A relative slack on the comparison with the threshold, zero by default.
    ///
    /// Where the two sums are rounded, a threshold placed exactly at an optimum
    /// sits exactly on one of them: the value a policy accumulates along the
    /// frontier and the same value accumulated in another order differ in the
    /// last bits, so a comparison that is an equality on paper falls either way
    /// in the machine. A slack of a few units in the last place settles those
    /// cases and is far below anything the instances distinguish.
    pub epsilon: N,
    pub workers: usize,
    pub ablation: Ablation,
    pub selection: Selection,
    pub seed: u64,
    /// How long the search may take, in nanoseconds.
    pub timeout: Option<u128>,
}

impl<N: Number> Config<N> {
    /// The tests this configuration reads.
    pub open spec fn tests(&self) -> Tests<N::Value> {
        Tests {
            threshold: vals(self.threshold@),
            slack: self.epsilon.value(),
            accept_early: self.ablation.accepts(),
            reject_early: self.ablation.rejects(),
        }
    }
}

/// The comparison with the threshold.
pub fn leq<N: Number>(a: &Vec<N>, b: &Vec<N>, epsilon: &N) -> (r: bool)
    ensures
        r == within::<N>(vals(a@), vals(b@), epsilon.value()),
{
    let zero = N::zero();
    let tight = epsilon.le(&zero) && zero.le(epsilon);
    let n = if a.len() < b.len() {
        a.len()
    } else {
        b.len()
    };
    for c in 0..n
        invariant
            n == if a@.len() < b@.len() {
                a@.len()
            } else {
                b@.len()
            },
            tight == (N::le_v(epsilon.value(), N::zero_v()) && N::le_v(
                N::zero_v(),
                epsilon.value(),
            )),
            forall|j: int|
                0 <= j < c ==> if tight {
                    N::le_v(#[trigger] vals(a@)[j], vals(b@)[j])
                } else {
                    N::le_v(
                        vals(a@)[j],
                        N::plus_v(
                            vals(b@)[j],
                            N::times_v(
                                epsilon.value(),
                                N::max_v(N::abs_v(vals(b@)[j]), N::one_v()),
                            ),
                        ),
                    )
                },
    {
        let fine = if tight {
            a[c].le(&b[c])
        } else {
            a[c].le(&b[c].plus(&epsilon.times(&b[c].abs().max(&N::one()))))
        };
        if !fine {
            assert(!within::<N>(vals(a@), vals(b@), epsilon.value())) by {
                assert(vals(a@)[c as int] == a@[c as int].value());
                assert(vals(b@)[c as int] == b@[c as int].value());
            }
            return false;
        }
    }
    true
}

} // verus!
