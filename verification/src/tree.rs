//! The tree of a BPMN+CPI process.
//!
//! The tree is held in one arena indexed by the identifier of the node, and
//! the numbering is the in-order one: every node of the low subtree has a
//! smaller identifier than the node and every node of the high subtree a
//! larger one. The semantics picks the witness of a trigger as the holder of
//! least identifier, so a scan of the arena is a scan in the order asked for.

use vstd::prelude::*;
use crate::num::{sum, sum_v, vals, zeros, zeros_v, Number};
use crate::semantics::{Net, Vertex};

verus! {

#[derive(Clone, Copy, PartialEq, Eq, Structural, Debug)]
pub enum Kind {
    Task,
    Sequence,
    Parallel,
    Choice,
    Nature,
}

impl Kind {
    pub fn is_xor(self) -> (r: bool)
        ensures
            r == (self == Kind::Choice || self == Kind::Nature),
    {
        matches!(self, Kind::Choice | Kind::Nature)
    }
}

/// One node of the tree. `low` and `high` are `0` at a task, `0` being no node.
pub struct Node<N> {
    pub kind: Kind,
    pub low: u32,
    pub high: u32,
    /// How long a task runs, `0` elsewhere.
    pub duration: i16,
    /// The probability of the **low** branch of a nature node, zero elsewhere.
    pub prob: N,
}

impl<N: Number> Node<N> {
    pub open spec fn vertex(self) -> Vertex {
        Vertex {
            kind: self.kind,
            low: self.low as int,
            high: self.high as int,
            duration: self.duration as int,
        }
    }
}

/// A node that carries what its kind does and no more: branches but at a task, a
/// duration at a task, a probability at a nature node.
pub open spec fn tidy<N: Number>(n: Node<N>) -> bool {
    &&& if n.kind == Kind::Task {
        n.low == 0 && n.high == 0
    } else {
        n.duration == 0
    }
    &&& n.kind != Kind::Nature ==> n.prob.value() == N::zero_v()
}

/// The header of an instance file, kept whole so that a result can name the
/// instance it came from without the caller carrying the path around.
pub struct Meta {
    pub key: String,
    pub nested: u32,
    pub independent: u32,
    pub process_number: u32,
    pub dimensions: usize,
    /// The names of the impact components, in the order of the vectors;
    /// empty when the file does not carry them.
    pub impact_names: Vec<String>,
    pub mode: String,
    pub seed: u64,
    pub tasks: u32,
    pub nodes: u32,
    pub max_duration: u32,
    pub xor_root_kind: String,
    pub source: String,
    pub expression: String,
}

pub struct Tree<N> {
    /// One-based: `nodes[0]` is a filler so that `nodes[id]` reads the node of
    /// identifier `id`.
    pub nodes: Vec<Node<N>>,
    pub root: u32,
    pub n_nodes: u32,
    pub n_tasks: u32,
    /// The dimension `k` of the impact vectors.
    pub k: usize,
    /// `(n_nodes + 1) * k` values, the impact of the task of identifier `id`
    /// sitting at `id * k`. The rows of the internal nodes are left at zero and
    /// never read.
    pub impacts: Vec<N>,
    /// The names of the tasks, by identifier, empty elsewhere.
    pub task_names: Vec<String>,
    /// The identifiers of the tasks, in increasing order.
    pub tasks: Vec<u32>,
    /// The identifiers of the XOR nodes, in increasing order.
    pub xors: Vec<u32>,
    pub meta: Meta,
}

/// The identifiers of the tasks from one to `n`, in increasing order.
pub open spec fn task_ids(g: Seq<Vertex>, n: int) -> Seq<u32>
    decreases n,
{
    if n <= 0 {
        Seq::empty()
    } else if g[n].kind == Kind::Task {
        task_ids(g, n - 1).push(n as u32)
    } else {
        task_ids(g, n - 1)
    }
}

/// The identifiers of the choice and nature nodes from one to `n`, in
/// increasing order.
pub open spec fn xor_ids(g: Seq<Vertex>, n: int) -> Seq<u32>
    decreases n,
{
    if n <= 0 {
        Seq::empty()
    } else if g[n].kind == Kind::Choice || g[n].kind == Kind::Nature {
        xor_ids(g, n - 1).push(n as u32)
    } else {
        xor_ids(g, n - 1)
    }
}

impl<N: Number> Tree<N> {
    /// The shape of the process.
    pub open spec fn net(&self) -> Net {
        Net {
            nodes: Seq::new(self.nodes@.len(), |i: int| self.nodes@[i].vertex()),
            root: self.root as int,
        }
    }

    /// The impact vector of a node.
    pub open spec fn impact_v(&self, id: int) -> Seq<N::Value> {
        Seq::new(self.k as nat, |c: int| self.impacts@[id * self.k + c].value())
    }

    /// The probability of the low branch of a node.
    pub open spec fn prob_v(&self, id: int) -> N::Value {
        self.nodes@[id].prob.value()
    }

    /// Probabilities lie strictly between zero and one, impacts are not
    /// negative.
    pub open spec fn weighed(&self) -> bool {
        &&& forall|i: int|
            1 <= i <= self.n_nodes && (#[trigger] self.nodes@[i]).kind == Kind::Nature ==> N::lt_v(
                N::zero_v(),
                self.nodes@[i].prob.value(),
            ) && N::lt_v(self.nodes@[i].prob.value(), N::one_v())
        &&& forall|i: int, c: int|
            1 <= i <= self.n_nodes && self.nodes@[i].kind == Kind::Task && 0 <= c < self.k
                ==> N::le_v(N::zero_v(), #[trigger] self.impact_v(i)[c])
    }

    /// A full binary tree numbered in order, with what the arena keeps beside
    /// it.
    pub open spec fn wf(&self) -> bool {
        &&& self.nodes@.len() == self.n_nodes + 1
        &&& self.net().wf()
        &&& self.k >= 1
        &&& self.impacts@.len() == (self.n_nodes + 1) * self.k
        &&& self.task_names@.len() == self.n_nodes + 1
        &&& self.tasks@ == task_ids(self.net().nodes, self.n_nodes as int)
        &&& self.xors@ == xor_ids(self.net().nodes, self.n_nodes as int)
        &&& self.tasks@.len() == self.n_tasks
        &&& self.n_nodes == 2 * self.n_tasks - 1
        &&& forall|i: int| 1 <= i <= self.n_nodes ==> tidy(#[trigger] self.nodes@[i])
        &&& self.weighed()
    }

    pub fn node(&self, id: u32) -> (r: &Node<N>)
        requires
            id < self.nodes@.len(),
        ensures
            *r == self.nodes@[id as int],
    {
        &self.nodes[id as usize]
    }

    pub fn kind(&self, id: u32) -> (r: Kind)
        requires
            id < self.nodes@.len(),
        ensures
            r == self.nodes@[id as int].kind,
    {
        self.nodes[id as usize].kind
    }

    /// The impact vector of a node.
    pub fn impact(&self, id: u32) -> (r: &[N])
        requires
            id < self.nodes@.len(),
            self.impacts@.len() == self.nodes@.len() * self.k,
        ensures
            r@.len() == self.k,
            vals(r@) =~= self.impact_v(id as int),
    {
        proof {
            let (i, n, k) = (id as int, self.nodes@.len() as int, self.k as int);
            assert(i * k + k <= n * k && 0 <= i * k) by (nonlinear_arith)
                requires
                    0 <= i < n,
                    0 <= k,
            ;
        }
        assert(self.impacts.len() == self.impacts@.len());
        let a: usize = id as usize * self.k;
        vstd::slice::slice_subrange(self.impacts.as_slice(), a, a + self.k)
    }

    /// The impacts of the first `n` tasks, added up in order.
    pub open spec fn total_v(&self, n: int) -> Seq<N::Value>
        decreases n,
    {
        if n <= 0 {
            zeros_v::<N>(self.k as nat)
        } else {
            sum_v::<N>(self.total_v(n - 1), self.impact_v(self.tasks@[n - 1] as int))
        }
    }

    /// The sum of the impacts of every task, which bounds the value of every
    /// policy.
    pub fn total_impact(&self) -> (r: Vec<N>)
        requires
            self.wf(),
        ensures
            vals(r@) == self.total_v(self.tasks@.len() as int),
    {
        let mut out: Vec<N> = zeros(self.k);
        for i in 0..self.tasks.len()
            invariant
                self.wf(),
                vals(out@) == self.total_v(i as int),
                out@.len() == self.k,
        {
            proof {
                task_ids_range(self.net().nodes, self.n_nodes as int);
            }
            out = sum(&out, self.impact(self.tasks[i]));
        }
        out
    }
}

/// The task identifiers are the tasks, each once, in increasing order.
pub proof fn task_ids_range(g: Seq<Vertex>, n: int)
    requires
        n < g.len(),
        n <= u32::MAX,
    ensures
        task_ids(g, n).len() <= n || n <= 0,
        forall|i: int|
            0 <= i < task_ids(g, n).len() ==> 1 <= #[trigger] task_ids(g, n)[i] <= n && g[task_ids(
                g,
                n,
            )[i] as int].kind == Kind::Task,
        forall|i: int, j: int|
            0 <= i < j < task_ids(g, n).len() ==> task_ids(g, n)[i] < task_ids(g, n)[j],
        forall|u: int|
            1 <= u <= n && (#[trigger] g[u]).kind == Kind::Task ==> task_ids(g, n).contains(u as u32),
    decreases n,
{
    if n > 0 {
        task_ids_range(g, n - 1);
        let a = task_ids(g, n - 1);
        let b = task_ids(g, n);
        assert forall|u: int| 1 <= u <= n && (#[trigger] g[u]).kind == Kind::Task implies b.contains(
            u as u32,
        ) by {
            if u < n {
                assert(a.contains(u as u32));
                let i = a.index_of(u as u32);
                assert(b[i] == u as u32);
            } else {
                assert(b[a.len() as int] == u as u32);
            }
        }
    }
}

/// The identifiers of the choice and nature nodes are those of nodes.
pub proof fn xor_ids_range(g: Seq<Vertex>, n: int)
    requires
        n <= u32::MAX,
    ensures
        forall|i: int| 0 <= i < xor_ids(g, n).len() ==> 1 <= #[trigger] xor_ids(g, n)[i] <= n,
    decreases n,
{
    if n > 0 {
        xor_ids_range(g, n - 1);
        let (a, b) = (xor_ids(g, n - 1), xor_ids(g, n));
        assert forall|i: int| 0 <= i < b.len() implies 1 <= #[trigger] b[i] <= n by {
            if i < a.len() {
                assert(b[i] == a[i]);
            }
        }
    }
}

} // verus!
