//! Distributions, ancestor edges and the graph that holds them.
use crate::error::GraphError;
use crate::fixed::Complex;
use crate::timeline::K_LIMIT;
use vstd::prelude::*;

verus! {

/// The kind of magnetization that a distribution carries.
#[derive(Clone, Copy, PartialEq, Eq, Structural, Debug)]
pub enum DistType {
    /// Longitudinal magnetization.
    Z,
    /// Transverse magnetization.
    P,
    /// The conjugate partner of transverse magnetization.
    M,
}

/// How a distribution arose from an ancestor.
#[derive(Clone, Copy, PartialEq, Eq, Structural, Debug)]
pub enum Relation {
    /// The ancestor kept its type: between the two pulses it only decayed.
    Carried,
    /// A pulse tipped longitudinal magnetization into the transverse plane.
    Excited,
    /// A pulse stored transverse magnetization along the longitudinal axis.
    Stored,
    /// A pulse conjugated transverse magnetization.
    Refocused,
}

/// Three spatial-frequency components, in grid steps.
#[derive(Clone, Copy, PartialEq, Eq, Structural, Debug)]
pub struct Vec3 {
    pub x: i64,
    pub y: i64,
    pub z: i64,
}

/// The accumulated k-space offset of a distribution.
#[derive(Clone, Copy, PartialEq, Eq, Debug)]
pub struct Offset {
    /// The spatial-frequency components.
    pub k: Vec3,
    /// The time, in ticks, over which the magnetization has dephased; refocusing lets it
    /// run backward.
    pub dephasing: i64,
    /// The sum of the diffusion exponents applied so far; `None` where diffusion is off.
    pub diffusion: Option<u128>,
}

/// A directed dependency from a distribution to one it was derived from.
#[derive(Clone, Copy, PartialEq, Eq, Debug)]
pub struct Edge {
    pub relation: Relation,
    /// The coefficient by which the ancestor's amplitude enters the descendant's.
    pub rot_mat_factor: Complex,
    /// The population that holds the ancestor.
    pub repetition: usize,
    /// The ancestor's place in that population.
    pub index: usize,
}

/// One magnetization pathway.
#[derive(Clone, PartialEq, Eq, Debug)]
pub struct Distribution {
    pub dist_type: DistType,
    /// The estimated complex amplitude.
    pub mag: Complex,
    pub kt_vec: Offset,
    /// The sum of the amplitudes recorded at readout events.
    pub recorded: u64,
    /// The signal this distribution emits by itself.
    pub latent_signal: u64,
    /// The latent signal plus the discounted signal of all descendants.
    pub signal: u64,
    /// The signal relative to the largest signal in the graph, in fixed point.
    pub rel_signal: u64,
    /// The edges to the distributions this one was derived from, in creation order.
    pub ancestors: Vec<Edge>,
}

/// The mathematical value of a distribution.
pub struct Node {
    pub dist_type: DistType,
    pub mag: Complex,
    pub kt_vec: Offset,
    pub recorded: u64,
    pub latent_signal: u64,
    pub signal: u64,
    pub rel_signal: u64,
    pub ancestors: Seq<Edge>,
}

impl View for Distribution {
    type V = Node;

    open spec fn view(&self) -> Node {
        Node {
            dist_type: self.dist_type,
            mag: self.mag,
            kt_vec: self.kt_vec,
            recorded: self.recorded,
            latent_signal: self.latent_signal,
            signal: self.signal,
            rel_signal: self.rel_signal,
            ancestors: self.ancestors@,
        }
    }
}

/// The mathematical value of a population: its nodes in order.
pub open spec fn population_view(p: Seq<Distribution>) -> Seq<Node> {
    Seq::new(p.len(), |i: int| p[i]@)
}

/// The amplitude and the offset of the node are within their ranges.
pub open spec fn node_bounded(n: Node) -> bool {
    n.mag.in_range() && n.kt_vec.k.within(K_LIMIT)
}

/// Every node of the population has its amplitude and its offset within their ranges.
pub open spec fn population_bounded(c: Seq<Node>) -> bool {
    forall|i: int| 0 <= i < c.len() ==> node_bounded(#[trigger] c[i])
}

/// Every ancestor edge of the population leads to one of the first `count` nodes of
/// population `repetition`.
pub open spec fn edges_into(c: Seq<Node>, repetition: usize, count: int) -> bool {
    forall|i: int, a: int|
        0 <= i < c.len() && 0 <= a < c[i].ancestors.len() ==> (#[trigger] c[i].ancestors[a]).repetition
            == repetition && c[i].ancestors[a].index < count
}

/// The populations of all repetitions, in temporal order. Population 0 is the state before
/// the first pulse; population `r` holds the survivors of repetition `r`.
#[derive(Clone, PartialEq, Eq, Debug)]
pub struct Graph {
    pub populations: Vec<Vec<Distribution>>,
}

impl View for Graph {
    type V = Seq<Seq<Node>>;

    open spec fn view(&self) -> Seq<Seq<Node>> {
        Seq::new(self.populations@.len(), |r: int| population_view(self.populations@[r]@))
    }
}

/// The edge leads from population `r` to an existing node of an earlier population.
pub open spec fn edge_ok(g: Seq<Seq<Node>>, r: int, e: Edge) -> bool {
    e.repetition < r && e.index < g[e.repetition as int].len()
}

/// All ancestor edges of the node lead to existing nodes of earlier populations.
pub open spec fn node_ok(g: Seq<Seq<Node>>, r: int, i: int) -> bool {
    forall|a: int| 0 <= a < g[r][i].ancestors.len() ==> edge_ok(g, r, #[trigger] g[r][i].ancestors[a])
}

/// Every ancestor edge in the graph leads to an existing node of an earlier population.
pub open spec fn well_formed(g: Seq<Seq<Node>>) -> bool {
    forall|r: int, i: int| 0 <= r < g.len() && 0 <= i < g[r].len() ==> #[trigger] node_ok(g, r, i)
}

/// Some ancestor edge of the node `from` leads to the node `to`.
pub open spec fn has_edge(g: Seq<Seq<Node>>, from: (int, int), to: (int, int)) -> bool {
    exists|a: int|
        0 <= a < g[from.0][from.1].ancestors.len() && (#[trigger] g[from.0][from.1].ancestors[a]).repetition
            == to.0 && g[from.0][from.1].ancestors[a].index == to.1
}

/// The node at place `k` of the path has an ancestor edge to the next one.
pub open spec fn step_ok(g: Seq<Seq<Node>>, path: Seq<(int, int)>, k: int) -> bool {
    has_edge(g, path[k], path[k + 1])
}

/// `path` names nodes of the graph, each of which has an ancestor edge to the next.
pub open spec fn is_path(g: Seq<Seq<Node>>, path: Seq<(int, int)>) -> bool {
    &&& forall|k: int|
        0 <= k < path.len() ==> 0 <= (#[trigger] path[k]).0 < g.len() && 0 <= path[k].1
            < g[path[k].0].len()
    &&& forall|k: int| 0 <= k < path.len() - 1 ==> #[trigger] step_ok(g, path, k)
}

/// In a well-formed graph every step along ancestor edges leads to a strictly earlier
/// population, so that no path returns to the node it started from: the graph has no cycle.
pub proof fn lemma_acyclic(g: Seq<Seq<Node>>, path: Seq<(int, int)>)
    requires
        well_formed(g),
        is_path(g, path),
        path.len() >= 2,
    ensures
        path.last().0 < path.first().0,
        path.last() != path.first(),
    decreases path.len(),
{
    let n = path.len() as int;
    let k = n - 2;
    assert(step_ok(g, path, k));
    let from = path[k];
    let a = choose|a: int|
        0 <= a < g[from.0][from.1].ancestors.len() && (#[trigger] g[from.0][from.1].ancestors[a]).repetition
            == path[k + 1].0 && g[from.0][from.1].ancestors[a].index == path[k + 1].1;
    assert(node_ok(g, from.0, from.1));
    assert(edge_ok(g, from.0, g[from.0][from.1].ancestors[a]));
    assert(path[n - 1].0 < path[k].0);
    if n > 2 {
        let shorter = path.drop_last();
        assert(is_path(g, shorter)) by {
            assert forall|j: int| 0 <= j < shorter.len() - 1 implies #[trigger] step_ok(
                g,
                shorter,
                j,
            ) by {
                assert(step_ok(g, path, j));
                assert(shorter[j] == path[j]);
                assert(shorter[j + 1] == path[j + 1]);
            }
            assert forall|j: int| 0 <= j < shorter.len() implies 0 <= (#[trigger] shorter[j]).0
                < g.len() && 0 <= shorter[j].1 < g[shorter[j].0].len() by {
                assert(shorter[j] == path[j]);
            }
        }
        lemma_acyclic(g, shorter);
        assert(shorter.last() == path[k]);
        assert(shorter.first() == path.first());
    }
}

impl Graph {
    /// Checks that every ancestor edge leads to a node of an earlier population, and
    /// names the first node that has an edge which does not.
    pub fn check_ancestry(&self) -> (r: Result<(), GraphError>)
        ensures
            r.is_ok() <==> well_formed(self@),
            match r {
                Ok(_) => true,
                Err(GraphError::InternalInvariantViolation { repetition, index }) => {
                    &&& repetition < self@.len()
                    &&& index < self@[repetition as int].len()
                    &&& !node_ok(self@, repetition as int, index as int)
                    &&& first_offender(self@, repetition as int, index as int)
                },
                Err(_) => false,
            },
    {
        let n = self.populations.len();
        let mut rep: usize = 0;
        while rep < n
            invariant
                n == self.populations@.len(),
                rep <= n,
                forall|r: int, i: int|
                    0 <= r < rep && 0 <= i < self@[r].len() ==> #[trigger] node_ok(self@, r, i),
            decreases n - rep,
        {
            let population = &self.populations[rep];
            let m = population.len();
            let mut i: usize = 0;
            while i < m
                invariant
                    n == self.populations@.len(),
                    rep < n,
                    population == self.populations@[rep as int],
                    m == population@.len(),
                    i <= m,
                    forall|r: int, j: int|
                        0 <= r < rep && 0 <= j < self@[r].len() ==> #[trigger] node_ok(
                            self@,
                            r,
                            j,
                        ),
                    forall|j: int| 0 <= j < i ==> #[trigger] node_ok(self@, rep as int, j),
                decreases m - i,
            {
                let node = &population[i];
                let count = node.ancestors.len();
                let mut a: usize = 0;
                assert(self@[rep as int][i as int].ancestors == node.ancestors@);
                assert(first_offender(self@, rep as int, i as int));
                while a < count
                    invariant
                        n == self.populations@.len(),
                        rep < n,
                        population == self.populations@[rep as int],
                        i < population@.len(),
                        node == population@[i as int],
                        count == node.ancestors@.len(),
                        a <= count,
                        self@[rep as int][i as int].ancestors == node.ancestors@,
                        first_offender(self@, rep as int, i as int),
                        forall|b: int|
                            0 <= b < a ==> edge_ok(self@, rep as int, #[trigger] node.ancestors@[b]),
                    decreases count - a,
                {
                    let edge = &node.ancestors[a];
                    let good = edge.repetition < rep && edge.index
                        < self.populations[edge.repetition].len();
                    assert(good == edge_ok(self@, rep as int, *edge));
                    if !good {
                        assert(!node_ok(self@, rep as int, i as int)) by {
                            assert(self@[rep as int][i as int].ancestors[a as int] == *edge);
                        }
                        return Err(
                            GraphError::InternalInvariantViolation { repetition: rep, index: i },
                        );
                    }
                    a += 1;
                }
                assert(node_ok(self@, rep as int, i as int));
                i += 1;
            }
            rep += 1;
        }
        Ok(())
    }
}

/// No node that comes before `(rep, i)`, by population and then by place, has a bad edge.
pub open spec fn first_offender(g: Seq<Seq<Node>>, rep: int, i: int) -> bool {
    &&& forall|r: int, j: int| 0 <= r < rep && 0 <= j < g[r].len() ==> #[trigger] node_ok(g, r, j)
    &&& forall|j: int| 0 <= j < i ==> #[trigger] node_ok(g, rep, j)
}

} // verus!
