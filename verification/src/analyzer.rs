//! The graph analyzer: one backward pass that assigns a signal to every node.
use crate::fixed::ONE;
use crate::graph::{Distribution, Edge, Graph, Node};
use vstd::arithmetic::div_mod::{lemma_div_is_ordered, lemma_div_multiples_vanish};
use vstd::prelude::*;

verus! {

/// A signal, held at the largest representable value where it exceeds it.
pub open spec fn cap(x: nat) -> u64 {
    if x > u64::MAX {
        u64::MAX
    } else {
        x as u64
    }
}

/// What a descendant with the given signal passes on along an edge: its signal times the
/// magnitude of the edge's factor.
pub open spec fn discounted(signal: u64, e: Edge) -> nat {
    (signal as nat * e.rot_mat_factor.norm()) / (ONE as nat)
}

/// The edge, which belongs to a node of population `q`, leads to node `i` of the earlier
/// population `r`.
pub open spec fn targets(e: Edge, q: int, r: int, i: int) -> bool {
    e.repetition == r && e.index == i && r < q
}

/// The signal of node `i` of population `r`: what it recorded itself, plus what all of
/// its descendants pass on to it.
pub open spec fn signal_of(g: Seq<Seq<Node>>, r: int, i: int) -> u64
    decreases g.len() - r, 3int, 0int,
{
    if 0 <= r < g.len() && 0 <= i < g[r].len() {
        cap(g[r][i].recorded as nat + inflow_from(g, r, i, r + 1))
    } else {
        0
    }
}

/// What the nodes of the populations from `from` on pass on to node `i` of population `r`.
pub open spec fn inflow_from(g: Seq<Seq<Node>>, r: int, i: int, from: int) -> nat
    decreases g.len() - r, 2int, g.len() - from,
{
    if 0 <= r < from < g.len() {
        population_flow(g, from, g[from].len() as int, r, i) + inflow_from(g, r, i, from + 1)
    } else {
        0
    }
}

/// What the first `m` nodes of population `q` pass on to node `i` of population `r`.
pub open spec fn population_flow(g: Seq<Seq<Node>>, q: int, m: int, r: int, i: int) -> nat
    decreases g.len() - r, 1int, m,
{
    if 0 < m <= g[q].len() && 0 <= r < q < g.len() {
        population_flow(g, q, m - 1, r, i) + node_flow(
            g,
            q,
            m - 1,
            g[q][m - 1].ancestors.len() as int,
            r,
            i,
        )
    } else {
        0
    }
}

/// What node `j` of population `q` passes on to node `i` of population `r` along its
/// first `a` ancestor edges.
pub open spec fn node_flow(g: Seq<Seq<Node>>, q: int, j: int, a: int, r: int, i: int) -> nat
    decreases g.len() - r, 0int, a,
{
    if 0 <= r < q < g.len() && 0 <= j < g[q].len() && 0 < a <= g[q][j].ancestors.len() {
        node_flow(g, q, j, a - 1, r, i) + if targets(g[q][j].ancestors[a - 1], q, r, i) {
            discounted(signal_of(g, q, j), g[q][j].ancestors[a - 1])
        } else {
            0
        }
    } else {
        0
    }
}

/// The largest signal among the first `m` nodes of population `r`.
pub open spec fn population_max(g: Seq<Seq<Node>>, r: int, m: int) -> u64
    decreases m,
{
    if m <= 0 {
        0
    } else if signal_of(g, r, m - 1) > population_max(g, r, m - 1) {
        signal_of(g, r, m - 1)
    } else {
        population_max(g, r, m - 1)
    }
}

/// The largest signal among the nodes of the first `n` populations.
pub open spec fn graph_max(g: Seq<Seq<Node>>, n: int) -> u64
    decreases n,
{
    if n <= 0 {
        0
    } else if population_max(g, n - 1, g[n - 1].len() as int) > graph_max(g, n - 1) {
        population_max(g, n - 1, g[n - 1].len() as int)
    } else {
        graph_max(g, n - 1)
    }
}

/// A signal relative to the largest signal, in fixed point; zero where the largest is zero.
pub open spec fn relative(signal: u64, max: u64) -> u64 {
    if max == 0 {
        0
    } else {
        (signal as nat * (ONE as nat) / (max as nat)) as u64
    }
}

/// The node with its three signals assigned.
pub open spec fn annotated(n: Node, signal: u64, max: u64) -> Node {
    Node { latent_signal: n.recorded, signal, rel_signal: relative(signal, max), ..n }
}

/// The graph with the signals of every node assigned. Nothing else changes.
pub open spec fn analyzed(g: Seq<Seq<Node>>) -> Seq<Seq<Node>> {
    Seq::new(
        g.len(),
        |r: int|
            Seq::new(
                g[r].len(),
                |i: int| annotated(g[r][i], signal_of(g, r, i), graph_max(g, g.len() as int)),
            ),
    )
}

/// Two graphs have the same shape, and each node has recorded the same and has the same
/// ancestor edges in both.
pub open spec fn same_flow(g: Seq<Seq<Node>>, h: Seq<Seq<Node>>) -> bool {
    &&& g.len() == h.len()
    &&& forall|r: int| 0 <= r < g.len() ==> (#[trigger] g[r]).len() == h[r].len()
    &&& forall|r: int, i: int|
        0 <= r < g.len() && 0 <= i < g[r].len() ==> (#[trigger] g[r][i]).recorded
            == h[r][i].recorded && g[r][i].ancestors == h[r][i].ancestors
}

/// The signal of a node depends only on the shape of the graph, on what the nodes
/// recorded, and on their ancestor edges.
pub proof fn lemma_signal_same(g: Seq<Seq<Node>>, h: Seq<Seq<Node>>, r: int, i: int)
    requires
        same_flow(g, h),
    ensures
        signal_of(g, r, i) == signal_of(h, r, i),
    decreases g.len() - r, 3int, 0int,
{
    if 0 <= r < g.len() && 0 <= i < g[r].len() {
        assert(g[r].len() == h[r].len());
        assert(g[r][i].recorded == h[r][i].recorded);
        lemma_inflow_same(g, h, r, i, r + 1);
    } else if 0 <= r < g.len() {
        assert(g[r].len() == h[r].len());
    }
}

/// The inflow of a node depends only on shape, records and edges.
pub proof fn lemma_inflow_same(g: Seq<Seq<Node>>, h: Seq<Seq<Node>>, r: int, i: int, from: int)
    requires
        same_flow(g, h),
    ensures
        inflow_from(g, r, i, from) == inflow_from(h, r, i, from),
    decreases g.len() - r, 2int, g.len() - from,
{
    if 0 <= r < from < g.len() {
        assert(g[from].len() == h[from].len());
        lemma_population_flow_same(g, h, from, g[from].len() as int, r, i);
        lemma_inflow_same(g, h, r, i, from + 1);
    }
}

/// The flow out of a population depends only on shape, records and edges.
pub proof fn lemma_population_flow_same(
    g: Seq<Seq<Node>>,
    h: Seq<Seq<Node>>,
    q: int,
    m: int,
    r: int,
    i: int,
)
    requires
        same_flow(g, h),
    ensures
        population_flow(g, q, m, r, i) == population_flow(h, q, m, r, i),
    decreases g.len() - r, 1int, m,
{
    if 0 <= r < q < g.len() {
        assert(g[q].len() == h[q].len());
        if 0 < m <= g[q].len() {
            assert(g[q][m - 1].ancestors == h[q][m - 1].ancestors);
            lemma_population_flow_same(g, h, q, m - 1, r, i);
            lemma_node_flow_same(g, h, q, m - 1, g[q][m - 1].ancestors.len() as int, r, i);
        }
    }
}

/// The flow out of a node depends only on shape, records and edges.
pub proof fn lemma_node_flow_same(
    g: Seq<Seq<Node>>,
    h: Seq<Seq<Node>>,
    q: int,
    j: int,
    a: int,
    r: int,
    i: int,
)
    requires
        same_flow(g, h),
    ensures
        node_flow(g, q, j, a, r, i) == node_flow(h, q, j, a, r, i),
    decreases g.len() - r, 0int, a,
{
    if 0 <= r < q < g.len() {
        assert(g[q].len() == h[q].len());
        if 0 <= j < g[q].len() {
            assert(g[q][j].ancestors == h[q][j].ancestors);
            if 0 < a <= g[q][j].ancestors.len() {
                lemma_node_flow_same(g, h, q, j, a - 1, r, i);
                lemma_signal_same(g, h, q, j);
            }
        }
    }
}

/// The largest signal of a population depends only on shape, records and edges.
pub proof fn lemma_population_max_same(g: Seq<Seq<Node>>, h: Seq<Seq<Node>>, r: int, m: int)
    requires
        same_flow(g, h),
    ensures
        population_max(g, r, m) == population_max(h, r, m),
    decreases m,
{
    if m > 0 {
        lemma_population_max_same(g, h, r, m - 1);
        lemma_signal_same(g, h, r, m - 1);
    }
}

/// The largest signal of a graph depends only on shape, records and edges.
pub proof fn lemma_graph_max_same(g: Seq<Seq<Node>>, h: Seq<Seq<Node>>, n: int)
    requires
        same_flow(g, h),
        n <= g.len(),
    ensures
        graph_max(g, n) == graph_max(h, n),
    decreases n,
{
    if n > 0 {
        lemma_graph_max_same(g, h, n - 1);
        assert(g[n - 1].len() == h[n - 1].len());
        lemma_population_max_same(g, h, n - 1, g[n - 1].len() as int);
    }
}

/// Analysis is idempotent: analyzing an analyzed graph gives the same graph again.
pub proof fn lemma_analysis_idempotent(g: Seq<Seq<Node>>)
    ensures
        analyzed(analyzed(g)) == analyzed(g),
{
    let h = analyzed(g);
    assert(same_flow(g, h));
    lemma_graph_max_same(g, h, g.len() as int);
    assert forall|r: int, i: int| 0 <= r < g.len() && 0 <= i < g[r].len() implies analyzed(
        h,
    )[r][i] == h[r][i] by {
        lemma_signal_same(g, h, r, i);
    }
    assert forall|r: int| 0 <= r < g.len() implies #[trigger] analyzed(h)[r] == h[r] by {
        assert(analyzed(h)[r] =~= h[r]);
    }
    assert(analyzed(h) =~= h);
}

/// Analysis changes nothing but the three signals of each node: the graph keeps its
/// shape, and every node its type, amplitude, offset, record and ancestor edges.
pub proof fn lemma_analysis_annotates(g: Seq<Seq<Node>>)
    ensures
        analyzed(g).len() == g.len(),
        forall|r: int| 0 <= r < g.len() ==> (#[trigger] analyzed(g)[r]).len() == g[r].len(),
        forall|r: int, i: int|
            0 <= r < g.len() && 0 <= i < g[r].len() ==> {
                &&& (#[trigger] analyzed(g)[r][i]).dist_type == g[r][i].dist_type
                &&& analyzed(g)[r][i].mag == g[r][i].mag
                &&& analyzed(g)[r][i].kt_vec == g[r][i].kt_vec
                &&& analyzed(g)[r][i].recorded == g[r][i].recorded
                &&& analyzed(g)[r][i].ancestors == g[r][i].ancestors
            },
{
}

/// The largest signal of a population is at least the signal of each of its nodes.
pub proof fn lemma_population_max_bounds(g: Seq<Seq<Node>>, r: int, m: int, i: int)
    requires
        0 <= i < m,
    ensures
        signal_of(g, r, i) <= population_max(g, r, m),
    decreases m,
{
    if i < m - 1 {
        lemma_population_max_bounds(g, r, m - 1, i);
    }
}

/// The largest signal of a graph is at least the signal of each of its nodes, so that no
/// relative signal exceeds `ONE`.
pub proof fn lemma_graph_max_bounds(g: Seq<Seq<Node>>, n: int, r: int, i: int)
    requires
        0 <= r < n <= g.len(),
        0 <= i < g[r].len(),
    ensures
        signal_of(g, r, i) <= graph_max(g, n),
        relative(signal_of(g, r, i), graph_max(g, n)) <= ONE,
    decreases n,
{
    if r < n - 1 {
        lemma_graph_max_bounds(g, n - 1, r, i);
    } else {
        lemma_population_max_bounds(g, r, g[r].len() as int, i);
    }
    let s = signal_of(g, r, i) as int;
    let m = graph_max(g, n) as int;
    if m > 0 {
        assert(s * ONE <= m * ONE) by (nonlinear_arith)
            requires
                s <= m,
                ONE > 0,
        ;
        lemma_div_is_ordered(s * ONE, m * ONE, m);
        assert(m * ONE == ONE * m) by (nonlinear_arith);
        lemma_div_multiples_vanish(ONE as int, m);
    }
}

/// What has reached node `i` of population `r` once the backward pass has gone through
/// all populations behind `p`, the first `j` nodes of population `p`, and the first `a`
/// edges of its node `j`.
pub open spec fn pending(g: Seq<Seq<Node>>, r: int, i: int, p: int, j: int, a: int) -> nat {
    inflow_from(g, r, i, p + 1) + population_flow(g, p, j, r, i) + node_flow(g, p, j, a, r, i)
}

/// What the table of the backward pass holds for node `i` of population `r` at that
/// point: the final signal where the node has been passed, else what has reached it.
pub open spec fn expected(g: Seq<Seq<Node>>, r: int, i: int, p: int, j: int, a: int) -> u64 {
    if r < p {
        cap(pending(g, r, i, p, j, a))
    } else if r == p && i >= j {
        cap(inflow_from(g, r, i, r + 1))
    } else {
        signal_of(g, r, i)
    }
}

/// The table has the shape of the graph and holds what is expected at that point of the
/// backward pass.
pub open spec fn table_inv(t: Seq<Vec<u64>>, g: Seq<Seq<Node>>, p: int, j: int, a: int) -> bool {
    &&& t.len() == g.len()
    &&& forall|r: int| 0 <= r < g.len() ==> (#[trigger] t[r])@.len() == g[r].len()
    &&& forall|r: int, i: int|
        0 <= r < g.len() && 0 <= i < g[r].len() ==> #[trigger] t[r]@[i] == expected(
            g,
            r,
            i,
            p,
            j,
            a,
        )
}

/// Before the pass nothing has reached any node.
proof fn lemma_expected_start(g: Seq<Seq<Node>>, r: int, i: int)
    requires
        0 <= r < g.len(),
        0 <= i < g[r].len(),
    ensures
        expected(g, r, i, g.len() - 1, 0, 0) == 0,
{
}

/// One more edge adds what it passes on to the node that it leads to, and nothing to any
/// other node.
proof fn lemma_expected_edge(g: Seq<Seq<Node>>, r: int, i: int, p: int, j: int, a: int)
    requires
        0 <= r < g.len(),
        0 <= i < g[r].len(),
        0 <= p < g.len(),
        0 <= j < g[p].len(),
        0 <= a < g[p][j].ancestors.len(),
    ensures
        expected(g, r, i, p, j, a + 1) == if targets(g[p][j].ancestors[a], p, r, i) {
            cap(
                expected(g, r, i, p, j, a) as nat + discounted(
                    signal_of(g, p, j),
                    g[p][j].ancestors[a],
                ),
            )
        } else {
            expected(g, r, i, p, j, a)
        },
{
}

/// Once all edges of a node are through, the node is passed.
proof fn lemma_expected_node(g: Seq<Seq<Node>>, r: int, i: int, p: int, j: int)
    requires
        0 <= r < g.len(),
        0 <= i < g[r].len(),
        0 <= p < g.len(),
        0 <= j < g[p].len(),
    ensures
        expected(g, r, i, p, j + 1, 0) == if r == p && i == j {
            signal_of(g, p, j)
        } else {
            expected(g, r, i, p, j, g[p][j].ancestors.len() as int)
        },
{
}

/// Once all nodes of a population are passed, the pass stands before the population in
/// front of it.
proof fn lemma_expected_population(g: Seq<Seq<Node>>, r: int, i: int, p: int)
    requires
        0 <= r < g.len(),
        0 <= i < g[r].len(),
        0 <= p < g.len(),
    ensures
        expected(g, r, i, p - 1, 0, 0) == expected(g, r, i, p, g[p].len() as int, 0),
{
}

/// Writes one cell of the table.
fn set_cell(t: &mut Vec<Vec<u64>>, r: usize, i: usize, x: u64)
    requires
        r < old(t)@.len(),
        i < old(t)@[r as int]@.len(),
    ensures
        final(t)@.len() == old(t)@.len(),
        final(t)@[r as int]@ == old(t)@[r as int]@.update(i as int, x),
        forall|q: int| 0 <= q < old(t)@.len() && q != r ==> final(t)@[q] == old(t)@[q],
{
    t[r][i] = x;
}

/// Makes a table of the shape of the graph, with zero in every cell.
fn zero_table(graph: &Graph) -> (t: Vec<Vec<u64>>)
    ensures
        t@.len() == graph@.len(),
        forall|r: int| 0 <= r < graph@.len() ==> (#[trigger] t@[r])@.len() == graph@[r].len(),
        forall|r: int, i: int|
            0 <= r < graph@.len() && 0 <= i < graph@[r].len() ==> #[trigger] t@[r]@[i] == 0,
{
    let mut t: Vec<Vec<u64>> = Vec::new();
    let n = graph.populations.len();
    let mut r: usize = 0;
    while r < n
        invariant
            n == graph.populations@.len(),
            r <= n,
            t@.len() == r,
            forall|q: int| 0 <= q < r ==> (#[trigger] t@[q])@.len() == graph@[q].len(),
            forall|q: int, i: int|
                0 <= q < r && 0 <= i < graph@[q].len() ==> #[trigger] t@[q]@[i] == 0,
        decreases n - r,
    {
        let m = graph.populations[r].len();
        let mut row: Vec<u64> = Vec::new();
        let mut i: usize = 0;
        while i < m
            invariant
                i <= m,
                row@.len() == i,
                forall|k: int| 0 <= k < i ==> #[trigger] row@[k] == 0,
            decreases m - i,
        {
            row.push(0);
            i += 1;
        }
        assert(graph@[r as int].len() == m);
        t.push(row);
        r += 1;
    }
    t
}

/// Computes what a descendant with the given signal passes on along an edge, held at the
/// largest representable value.
fn pass_on(signal: u64, e: &Edge) -> (d: u64)
    ensures
        d == cap(discounted(signal, *e)),
{
    let weight = e.rot_mat_factor.magnitude();
    assert(signal as u128 * weight as u128 <= u128::MAX) by (nonlinear_arith)
        requires
            signal <= 0xFFFF_FFFF_FFFF_FFFF,
            weight <= 0xFFFF_FFFF_FFFF_FFFF,
    ;
    let d: u128 = (signal as u128 * weight as u128) / (ONE as u128);
    if d > u64::MAX as u128 {
        u64::MAX
    } else {
        d as u64
    }
}

/// The backward pass: computes the signal of every node of the graph.
pub fn compute_signals(graph: &Graph) -> (t: Vec<Vec<u64>>)
    ensures
        t@.len() == graph@.len(),
        forall|r: int| 0 <= r < graph@.len() ==> (#[trigger] t@[r])@.len() == graph@[r].len(),
        forall|r: int, i: int|
            0 <= r < graph@.len() && 0 <= i < graph@[r].len() ==> #[trigger] t@[r]@[i]
                == signal_of(graph@, r, i),
{
    let ghost g = graph@;
    let mut t = zero_table(graph);
    let n = graph.populations.len();
    assert(table_inv(t@, g, n - 1, 0, 0)) by {
        assert forall|r: int, i: int| 0 <= r < g.len() && 0 <= i < g[r].len() implies #[trigger] t@[r]@[i]
            == expected(g, r, i, n - 1, 0, 0) by {
            lemma_expected_start(g, r, i);
        }
    }
    let mut q: usize = n;
    while q > 0
        invariant
            g == graph@,
            n == graph.populations@.len(),
            q <= n,
            table_inv(t@, g, q - 1, 0, 0),
        decreases q,
    {
        q -= 1;
        let population = &graph.populations[q];
        let m = population.len();
        assert(g[q as int].len() == m);
        let mut j: usize = 0;
        while j < m
            invariant
                g == graph@,
                n == graph.populations@.len(),
                q < n,
                population == graph.populations@[q as int],
                m == population@.len(),
                j <= m,
                table_inv(t@, g, q as int, j as int, 0),
            decreases m - j,
        {
            let node = &population[j];
            assert(g[q as int][j as int] == node@);
            let signal = node.recorded.saturating_add(t[q][j]);
            assert(signal == signal_of(g, q as int, j as int)) by {
                assert(t@[q as int]@[j as int] == expected(g, q as int, j as int, q as int, j as int, 0));
            }
            let count = node.ancestors.len();
            let mut a: usize = 0;
            while a < count
                invariant
                    g == graph@,
                    n == graph.populations@.len(),
                    q < n,
                    j < g[q as int].len(),
                    g[q as int][j as int] == node@,
                    count == node.ancestors@.len(),
                    a <= count,
                    signal == signal_of(g, q as int, j as int),
                    table_inv(t@, g, q as int, j as int, a as int),
                decreases count - a,
            {
                let e = &node.ancestors[a];
                let ghost before = t@;
                assert(g[q as int][j as int].ancestors[a as int] == *e);
                if e.repetition < q && e.index < t[e.repetition].len() {
                    let d = pass_on(signal, e);
                    let sum = t[e.repetition][e.index].saturating_add(d);
                    set_cell(&mut t, e.repetition, e.index, sum);
                    assert(table_inv(t@, g, q as int, j as int, a as int + 1)) by {
                        assert forall|r: int, i: int|
                            0 <= r < g.len() && 0 <= i < g[r].len() implies #[trigger] t@[r]@[i]
                            == expected(g, r, i, q as int, j as int, a as int + 1) by {
                            lemma_expected_edge(g, r, i, q as int, j as int, a as int);
                            assert(before[r]@[i] == expected(g, r, i, q as int, j as int, a as int));
                        }
                    }
                } else {
                    assert(table_inv(t@, g, q as int, j as int, a as int + 1)) by {
                        assert forall|r: int, i: int|
                            0 <= r < g.len() && 0 <= i < g[r].len() implies #[trigger] t@[r]@[i]
                            == expected(g, r, i, q as int, j as int, a as int + 1) by {
                            lemma_expected_edge(g, r, i, q as int, j as int, a as int);
                            assert(before[r]@.len() == g[r].len());
                        }
                    }
                }
                a += 1;
            }
            let ghost before = t@;
            set_cell(&mut t, q, j, signal);
            assert(table_inv(t@, g, q as int, j as int + 1, 0)) by {
                assert forall|r: int, i: int|
                    0 <= r < g.len() && 0 <= i < g[r].len() implies #[trigger] t@[r]@[i]
                    == expected(g, r, i, q as int, j as int + 1, 0) by {
                    lemma_expected_node(g, r, i, q as int, j as int);
                    assert(before[r]@[i] == expected(g, r, i, q as int, j as int, count as int));
                }
            }
            j += 1;
        }
        assert(table_inv(t@, g, q as int - 1, 0, 0)) by {
            assert forall|r: int, i: int|
                0 <= r < g.len() && 0 <= i < g[r].len() implies #[trigger] t@[r]@[i] == expected(
                g,
                r,
                i,
                q as int - 1,
                0,
                0,
            ) by {
                lemma_expected_population(g, r, i, q as int);
            }
        }
    }
    t
}

/// Finds the largest signal in the table of a graph.
fn largest_signal(graph: &Graph, t: &Vec<Vec<u64>>) -> (max: u64)
    requires
        t@.len() == graph@.len(),
        forall|r: int| 0 <= r < graph@.len() ==> (#[trigger] t@[r])@.len() == graph@[r].len(),
        forall|r: int, i: int|
            0 <= r < graph@.len() && 0 <= i < graph@[r].len() ==> #[trigger] t@[r]@[i]
                == signal_of(graph@, r, i),
    ensures
        max == graph_max(graph@, graph@.len() as int),
{
    let ghost g = graph@;
    let n = t.len();
    let mut max: u64 = 0;
    let mut r: usize = 0;
    while r < n
        invariant
            g == graph@,
            n == t@.len(),
            n == g.len(),
            r <= n,
            forall|q: int| 0 <= q < g.len() ==> (#[trigger] t@[q])@.len() == g[q].len(),
            forall|q: int, i: int|
                0 <= q < g.len() && 0 <= i < g[q].len() ==> #[trigger] t@[q]@[i] == signal_of(
                    g,
                    q,
                    i,
                ),
            max == graph_max(g, r as int),
        decreases n - r,
    {
        let row = &t[r];
        let m = row.len();
        let mut top: u64 = 0;
        let mut i: usize = 0;
        while i < m
            invariant
                r < n,
                n == g.len(),
                row == t@[r as int],
                m == row@.len(),
                m == g[r as int].len(),
                i <= m,
                forall|k: int|
                    0 <= k < g[r as int].len() ==> #[trigger] row@[k] == signal_of(g, r as int, k),
                top == population_max(g, r as int, i as int),
            decreases m - i,
        {
            if row[i] > top {
                top = row[i];
            }
            i += 1;
        }
        if top > max {
            max = top;
        }
        r += 1;
    }
    max
}

/// Computes a signal relative to the largest signal.
pub fn relative_signal(signal: u64, max: u64) -> (r: u64)
    requires
        signal <= max,
    ensures
        r == relative(signal, max),
        r <= ONE,
{
    if max == 0 {
        0
    } else {
        proof {
            let s = signal as int;
            let m = max as int;
            assert(0 <= s * ONE <= m * ONE) by (nonlinear_arith)
                requires
                    0 <= s <= m,
                    ONE > 0,
            ;
            assert(s * ONE <= 0x4000_0000 * 0xFFFF_FFFF_FFFF_FFFF) by (nonlinear_arith)
                requires
                    0 <= s <= 0xFFFF_FFFF_FFFF_FFFF,
                    ONE == 0x4000_0000,
            ;
            lemma_div_is_ordered(s * ONE, m * ONE, m);
            assert(m * ONE == ONE * m) by (nonlinear_arith);
            lemma_div_multiples_vanish(ONE as int, m);
        }
        ((signal as u128 * ONE as u128) / (max as u128)) as u64
    }
}

/// Assigns the three signals of one distribution.
fn annotate(d: &mut Distribution, signal: u64, max: u64)
    requires
        signal <= max,
    ensures
        final(d)@ == annotated(old(d)@, signal, max),
{
    d.latent_signal = d.recorded;
    d.signal = signal;
    d.rel_signal = relative_signal(signal, max);
}

/// What the graph holds for node `k` of population `q` once the signals of all nodes
/// before node `i` of population `r` are assigned.
pub open spec fn partly_analyzed(g: Seq<Seq<Node>>, q: int, k: int, r: int, i: int) -> Node {
    if q < r || (q == r && k < i) {
        annotated(g[q][k], signal_of(g, q, k), graph_max(g, g.len() as int))
    } else {
        g[q][k]
    }
}

/// Analyzes the graph: one backward pass computes the signal of every node, and every
/// node is then annotated with its latent, absolute and relative signal. The shape of the
/// graph, and all that the builder wrote, stay as they were.
pub fn analyze_graph(graph: &mut Graph)
    ensures
        final(graph)@ == analyzed(old(graph)@),
{
    let t = compute_signals(graph);
    let max = largest_signal(graph, &t);
    let ghost g = graph@;
    let n = graph.populations.len();
    let mut r: usize = 0;
    while r < n
        invariant
            n == g.len(),
            n == graph.populations@.len(),
            r <= n,
            t@.len() == g.len(),
            max == graph_max(g, g.len() as int),
            forall|q: int| 0 <= q < g.len() ==> (#[trigger] t@[q])@.len() == g[q].len(),
            forall|q: int, k: int|
                0 <= q < g.len() && 0 <= k < g[q].len() ==> #[trigger] t@[q]@[k] == signal_of(
                    g,
                    q,
                    k,
                ),
            forall|q: int| 0 <= q < g.len() ==> (#[trigger] graph.populations@[q])@.len() == g[q].len(),
            forall|q: int, k: int|
                0 <= q < g.len() && 0 <= k < g[q].len() ==> (#[trigger] graph.populations@[q]@[k])@
                    == partly_analyzed(g, q, k, r as int, 0),
        decreases n - r,
    {
        let m = graph.populations[r].len();
        let mut i: usize = 0;
        while i < m
            invariant
                n == g.len(),
                n == graph.populations@.len(),
                r < n,
                m == g[r as int].len(),
                i <= m,
                t@.len() == g.len(),
                max == graph_max(g, g.len() as int),
                forall|q: int| 0 <= q < g.len() ==> (#[trigger] t@[q])@.len() == g[q].len(),
                forall|q: int, k: int|
                    0 <= q < g.len() && 0 <= k < g[q].len() ==> #[trigger] t@[q]@[k] == signal_of(
                        g,
                        q,
                        k,
                    ),
                forall|q: int|
                    0 <= q < g.len() ==> (#[trigger] graph.populations@[q])@.len() == g[q].len(),
                forall|q: int, k: int|
                    0 <= q < g.len() && 0 <= k < g[q].len() ==> (
                    #[trigger] graph.populations@[q]@[k])@ == partly_analyzed(
                        g,
                        q,
                        k,
                        r as int,
                        i as int,
                    ),
            decreases m - i,
        {
            let signal = t[r][i];
            assert(signal == signal_of(g, r as int, i as int));
            proof {
                lemma_graph_max_bounds(g, g.len() as int, r as int, i as int);
            }
            let ghost before = graph.populations@;
            assert(before[r as int]@[i as int]@ == g[r as int][i as int]);
            annotate(&mut graph.populations[r][i], signal, max);
            assert forall|q: int, k: int|
                0 <= q < g.len() && 0 <= k < g[q].len() implies (
            #[trigger] graph.populations@[q]@[k])@ == partly_analyzed(
                g,
                q,
                k,
                r as int,
                i as int + 1,
            ) by {
                if q != r || k != i {
                    assert(graph.populations@[q]@[k] == before[q]@[k]);
                }
            }
            i += 1;
        }
        r += 1;
    }
    proof {
        let h = analyzed(g);
        assert forall|q: int| 0 <= q < g.len() implies #[trigger] graph@[q] == h[q] by {
            assert(graph.populations@[q]@.len() == g[q].len());
            assert forall|k: int| 0 <= k < g[q].len() implies graph@[q][k] == h[q][k] by {
                assert(graph.populations@[q]@[k]@ == partly_analyzed(g, q, k, n as int, 0));
            }
            assert(graph@[q] =~= h[q]);
        }
        assert(graph@ =~= h);
    }
}

/// Analysis keeps a well-formed graph well formed.
pub proof fn lemma_analysis_keeps_well_formed(g: Seq<Seq<Node>>)
    requires
        crate::graph::well_formed(g),
    ensures
        crate::graph::well_formed(analyzed(g)),
{
    let h = analyzed(g);
    assert forall|r: int, i: int| 0 <= r < h.len() && 0 <= i < h[r].len() implies #[trigger] crate::graph::node_ok(
        h,
        r,
        i,
    ) by {
        assert(crate::graph::node_ok(g, r, i));
        assert forall|a: int| 0 <= a < h[r][i].ancestors.len() implies crate::graph::edge_ok(
            h,
            r,
            #[trigger] h[r][i].ancestors[a],
        ) by {
            let e = g[r][i].ancestors[a];
            assert(crate::graph::edge_ok(g, r, e));
            assert(h[e.repetition as int].len() == g[e.repetition as int].len());
        }
    }
}

/// The signal of a node is at least what the node recorded itself.
pub proof fn lemma_signal_at_least_latent(g: Seq<Seq<Node>>, r: int, i: int)
    requires
        0 <= r < g.len(),
        0 <= i < g[r].len(),
    ensures
        signal_of(g, r, i) >= g[r][i].recorded,
{
}

/// The largest signal of a population is zero or the signal of one of its nodes.
pub proof fn lemma_population_max_attained(g: Seq<Seq<Node>>, r: int, m: int)
    ensures
        population_max(g, r, m) == 0 || exists|i: int|
            0 <= i < m && #[trigger] signal_of(g, r, i) == population_max(g, r, m),
    decreases m,
{
    if m > 0 {
        lemma_population_max_attained(g, r, m - 1);
        if signal_of(g, r, m - 1) > population_max(g, r, m - 1) {
            assert(signal_of(g, r, m - 1) == population_max(g, r, m));
        } else if population_max(g, r, m) != 0 {
            let i = choose|i: int|
                0 <= i < m - 1 && #[trigger] signal_of(g, r, i) == population_max(g, r, m - 1);
            assert(0 <= i < m && signal_of(g, r, i) == population_max(g, r, m));
        }
    }
}

/// The largest signal of a graph is zero or the signal of one of its nodes: where any
/// node has a signal, some node has the relative signal `ONE`.
pub proof fn lemma_graph_max_attained(g: Seq<Seq<Node>>, n: int)
    requires
        n <= g.len(),
    ensures
        graph_max(g, n) == 0 || exists|r: int, i: int|
            0 <= r < n && 0 <= i < g[r].len() && #[trigger] signal_of(g, r, i) == graph_max(g, n),
    decreases n,
{
    if n > 0 {
        lemma_graph_max_attained(g, n - 1);
        let top = population_max(g, n - 1, g[n - 1].len() as int);
        if top > graph_max(g, n - 1) {
            lemma_population_max_attained(g, n - 1, g[n - 1].len() as int);
            let i = choose|i: int|
                0 <= i < g[n - 1].len() && #[trigger] signal_of(g, n - 1, i) == top;
            assert(0 <= n - 1 < n && 0 <= i < g[n - 1].len() && signal_of(g, n - 1, i)
                == graph_max(g, n));
        } else if graph_max(g, n) != 0 {
            let (r, i) = choose|r: int, i: int|
                0 <= r < n - 1 && 0 <= i < g[r].len() && #[trigger] signal_of(g, r, i)
                    == graph_max(g, n - 1);
            assert(0 <= r < n && 0 <= i < g[r].len() && signal_of(g, r, i) == graph_max(g, n));
        }
    }
}

} // verus!
