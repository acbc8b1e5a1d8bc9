//! The graph builder: repetition by repetition, pulse step, event step, pruning step.
use crate::error::GraphError;
use crate::events::{event_step, evolved, lemma_evolved_ok};
use crate::fixed::{Complex, ONE};
use crate::graph::{
    edge_ok, edges_into, node_bounded, node_ok, population_bounded, population_view, well_formed,
    DistType, Distribution, Graph, Node, Offset, Vec3,
};
use crate::prune::{eligible, lemma_selection, prune, pruned, selection};
use crate::pulse::{
    compute_transitions, lemma_mixed_ok, mixed, new_node, origin, pulse_step,
    transitions,
};
use crate::tables::{average_mixing, mixing, B1Sample, DecayTable, Pulse};
use crate::timeline::{input_failure, input_valid, validate_input, Params, Repetition};
use vstd::prelude::*;

verus! {

/// The state before the first pulse: full longitudinal magnetization at equilibrium.
pub open spec fn equilibrium(diffusion_on: bool) -> Node {
    new_node(DistType::Z, Complex { re: ONE, im: 0 }, origin(diffusion_on), Seq::empty())
}

/// Population 0 of every graph: the equilibrium state, if it passes the pruning step.
pub open spec fn initial_population(p: Params) -> Seq<Node> {
    pruned(seq![equilibrium(p.d > 0)], p.min_dist_mag, p.max_dist_count)
}

/// The survivors of one repetition that starts from the population `prev`, which is
/// population `index` of the graph: the pulse step, then the event step, then the pruning
/// step. The error is `None` where an amplitude leaves its range in the pulse step, and
/// the number of the event where an offset leaves its range in the event step.
pub open spec fn survivors(
    prev: Seq<Node>,
    index: usize,
    rep: &Repetition,
    p: Params,
    b1: Seq<B1Sample>,
    decay: &DecayTable,
) -> Result<Seq<Node>, Option<usize>> {
    match mixed(prev, prev.len() as int, index, transitions(mixing(b1, rep.pulse())), p.d > 0) {
        None => Err(None),
        Some(c) => match evolved(c, rep, rep.event_time@.len() as int, p, decay) {
            Err(e) => Err(Some(e)),
            Ok(s) => Ok(pruned(s, p.min_dist_mag, p.max_dist_count)),
        },
    }
}

/// The populations after the first `n` repetitions of the sequence, or the failure of the
/// first repetition that fails.
pub open spec fn populations(
    seq: Seq<Repetition>,
    n: int,
    p: Params,
    b1: Seq<B1Sample>,
    decay: &DecayTable,
) -> Result<Seq<Seq<Node>>, GraphError>
    decreases n,
{
    if n <= 0 {
        Ok(seq![initial_population(p)])
    } else {
        match populations(seq, n - 1, p, b1, decay) {
            Err(e) => Err(e),
            Ok(g) => match survivors(g.last(), (n - 1) as usize, &seq[n - 1], p, b1, decay) {
                Err(event) => Err(
                    GraphError::NumericAnomaly { repetition: (n - 1) as usize, event },
                ),
                Ok(pop) => Ok(g.push(pop)),
            },
        }
    }
}

/// The graph of a sequence: the failure of the validation where the input has a defect,
/// else the populations after all repetitions.
pub open spec fn graph_of(
    seq: Seq<Repetition>,
    p: Params,
    b1: Seq<B1Sample>,
    decay: &DecayTable,
) -> Result<Seq<Seq<Node>>, GraphError> {
    match input_failure(p, b1, decay, seq) {
        Some(v) => Err(GraphError::Validation(v)),
        None => populations(seq, seq.len() as int, p, b1, decay),
    }
}

/// What holds of every population of a graph that the builder produces: it has at most
/// `max_dist_count` nodes, each with an amplitude of magnitude at least `min_dist_mag`
/// and with amplitude and offset in range.
pub open spec fn population_ok(pop: Seq<Node>, p: Params) -> bool {
    &&& pop.len() <= p.max_dist_count
    &&& population_bounded(pop)
    &&& forall|i: int| 0 <= i < pop.len() ==> eligible(#[trigger] pop[i], p.min_dist_mag)
}

/// Every ancestor edge of population `r` leads to a node of the population just before.
pub open spec fn links_back(g: Seq<Seq<Node>>, r: int) -> bool {
    edges_into(g[r], (r - 1) as usize, g[r - 1].len() as int)
}

/// Pruning keeps at most `max` candidates, all of them eligible, and keeps what holds of
/// every candidate.
pub proof fn lemma_pruned_ok(c: Seq<Node>, p: Params, repetition: usize, count: int)
    requires
        population_bounded(c),
        edges_into(c, repetition, count),
    ensures
        population_ok(pruned(c, p.min_dist_mag, p.max_dist_count), p),
        edges_into(pruned(c, p.min_dist_mag, p.max_dist_count), repetition, count),
{
    let s = selection(c, p.min_dist_mag, p.max_dist_count as int);
    let r = pruned(c, p.min_dist_mag, p.max_dist_count);
    lemma_selection(c, p.min_dist_mag, p.max_dist_count as int);
    assert forall|i: int| 0 <= i < r.len() implies eligible(#[trigger] r[i], p.min_dist_mag)
        && node_bounded(r[i]) by {
        assert(0 <= s[i] < c.len());
        assert(r[i] == c[s[i]]);
    }
    assert forall|i: int, a: int|
        0 <= i < r.len() && 0 <= a < r[i].ancestors.len() implies (#[trigger] r[i].ancestors[a]).repetition
        == repetition && r[i].ancestors[a].index < count by {
        assert(0 <= s[i] < c.len());
        assert(r[i] == c[s[i]]);
        assert(c[s[i]].ancestors[a].repetition == repetition);
    }
}

/// What holds of the survivors of a repetition, given what holds of the population it
/// starts from.
pub proof fn lemma_survivors_ok(
    prev: Seq<Node>,
    index: usize,
    rep: &Repetition,
    p: Params,
    b1: Seq<B1Sample>,
    decay: &DecayTable,
)
    requires
        population_bounded(prev),
        decay.valid(),
    ensures
        match survivors(prev, index, rep, p, b1, decay) {
            Ok(pop) => population_ok(pop, p) && edges_into(pop, index, prev.len() as int),
            Err(_) => true,
        },
{
    let t = transitions(mixing(b1, rep.pulse()));
    lemma_mixed_ok(prev, prev.len() as int, index, t, p.d > 0);
    match mixed(prev, prev.len() as int, index, t, p.d > 0) {
        None => {},
        Some(c) => {
            assert forall|i: int| 0 <= i < c.len() implies (#[trigger] c[i]).kt_vec.k.within(
                crate::timeline::K_LIMIT,
            ) by {
                assert(node_bounded(c[i]));
            }
            lemma_evolved_ok(
                c,
                rep,
                rep.event_time@.len() as int,
                p,
                decay,
                index,
                prev.len() as int,
            );
            match evolved(c, rep, rep.event_time@.len() as int, p, decay) {
                Err(_) => {},
                Ok(s) => {
                    lemma_evolved_bounded(c, rep, rep.event_time@.len() as int, p, decay);
                    lemma_pruned_ok(s, p, index, prev.len() as int);
                },
            }
        },
    }
}

/// The candidates keep their amplitudes and offsets in range through the events.
pub proof fn lemma_evolved_bounded(
    c: Seq<Node>,
    rep: &Repetition,
    n: int,
    p: Params,
    decay: &DecayTable,
)
    requires
        population_bounded(c),
        decay.valid(),
    ensures
        match evolved(c, rep, n, p, decay) {
            Ok(s) => population_bounded(s),
            Err(_) => true,
        },
    decreases n,
{
    if n > 0 {
        lemma_evolved_bounded(c, rep, n - 1, p, decay);
        match evolved(c, rep, n - 1, p, decay) {
            Err(_) => {},
            Ok(s) => {
                let dt = rep.event_time@[n - 1];
                let g = rep.gradm_event@[n - 1];
                let readout = rep.adc_mask@[n - 1];
                match crate::events::evolve_all(s, dt, g, readout, p, decay) {
                    None => {},
                    Some(s2) => {
                        assert forall|i: int| 0 <= i < s2.len() implies node_bounded(
                            #[trigger] s2[i],
                        ) by {
                            assert(node_bounded(s[i]));
                            crate::events::lemma_evolve_bounded(
                                s[i],
                                i == 0,
                                dt,
                                g,
                                readout,
                                p,
                                decay,
                            );
                        }
                    },
                }
            },
        }
    }
}

/// Every graph that the builder produces is well formed, has one population more than
/// the sequence has repetitions, and has every population within the configured bounds;
/// and every ancestor edge leads into the population just before.
pub proof fn lemma_populations_ok(
    seq: Seq<Repetition>,
    n: int,
    p: Params,
    b1: Seq<B1Sample>,
    decay: &DecayTable,
)
    requires
        0 <= n <= seq.len() <= usize::MAX,
        decay.valid(),
    ensures
        match populations(seq, n, p, b1, decay) {
            Ok(g) => {
                &&& g.len() == n + 1
                &&& well_formed(g)
                &&& forall|r: int| 0 <= r < g.len() ==> population_ok(#[trigger] g[r], p)
                &&& forall|r: int| 1 <= r < g.len() ==> #[trigger] links_back(g, r)
            },
            Err(_) => true,
        },
    decreases n,
{
    if n <= 0 {
        let c = seq![equilibrium(p.d > 0)];
        assert(node_bounded(c[0]));
        assert(edges_into(c, 0, 0));
        lemma_pruned_ok(c, p, 0, 0);
        let g = seq![initial_population(p)];
        assert(g[0] == initial_population(p));
        assert forall|r: int, i: int| 0 <= r < g.len() && 0 <= i < g[r].len() implies #[trigger] node_ok(
            g,
            r,
            i,
        ) by {
            assert forall|a: int| 0 <= a < g[r][i].ancestors.len() implies edge_ok(
                g,
                r,
                #[trigger] g[r][i].ancestors[a],
            ) by {
                assert(g[r][i].ancestors[a].index < 0);
            }
        }
    } else {
        lemma_populations_ok(seq, n - 1, p, b1, decay);
        match populations(seq, n - 1, p, b1, decay) {
            Err(_) => {},
            Ok(g) => {
                assert(population_ok(g[n - 1], p));
                lemma_survivors_ok(g.last(), (n - 1) as usize, &seq[n - 1], p, b1, decay);
                match survivors(g.last(), (n - 1) as usize, &seq[n - 1], p, b1, decay) {
                    Err(_) => {},
                    Ok(pop) => {
                        let g2 = g.push(pop);
                        assert forall|r: int| 0 <= r < g2.len() implies population_ok(
                            #[trigger] g2[r],
                            p,
                        ) by {
                            if r < g.len() {
                                assert(g2[r] == g[r]);
                            }
                        }
                        assert forall|r: int| 1 <= r < g2.len() implies #[trigger] links_back(
                            g2,
                            r,
                        ) by {
                            assert(g2[r - 1] == g[r - 1]);
                            if r < g.len() {
                                assert(g2[r] == g[r]);
                                assert(links_back(g, r));
                            }
                        }
                        assert forall|r: int, i: int|
                            0 <= r < g2.len() && 0 <= i < g2[r].len() implies #[trigger] node_ok(
                            g2,
                            r,
                            i,
                        ) by {
                            if r < g.len() {
                                assert(g2[r] == g[r]);
                                assert(node_ok(g, r, i));
                                assert forall|a: int|
                                    0 <= a < g2[r][i].ancestors.len() implies edge_ok(
                                    g2,
                                    r,
                                    #[trigger] g2[r][i].ancestors[a],
                                ) by {
                                    let e = g[r][i].ancestors[a];
                                    assert(edge_ok(g, r, e));
                                    assert(g2[e.repetition as int] == g[e.repetition as int]);
                                }
                            } else {
                                assert forall|a: int|
                                    0 <= a < g2[r][i].ancestors.len() implies edge_ok(
                                    g2,
                                    r,
                                    #[trigger] g2[r][i].ancestors[a],
                                ) by {
                                    let e = pop[i].ancestors[a];
                                    assert(e.repetition == (n - 1) as usize);
                                    assert(g2[n - 1] == g[n - 1]);
                                }
                            }
                        }
                    },
                }
            },
        }
    }
}

/// Builds the graph of a sequence.
///
/// The input is validated first; then the repetitions are processed in temporal order,
/// each by its pulse step, its event step and its pruning step. The result is a function
/// of the input alone. Every graph returned is well formed, so that it has no cycle, and
/// each of its populations has at most `max_dist_count` nodes, all of them with an
/// amplitude of magnitude at least `min_dist_mag`.
pub fn comp_graph(seq: &Vec<Repetition>, params: &Params, b1: &Vec<B1Sample>, decay: &DecayTable) -> (r:
    Result<Graph, GraphError>)
    ensures
        match graph_of(seq@, *params, b1@, decay) {
            Ok(g) => r.is_ok() && r.unwrap()@ == g,
            Err(e) => r == Err::<Graph, GraphError>(e),
        },
        match r {
            Ok(graph) => {
                &&& graph@.len() == seq@.len() + 1
                &&& well_formed(graph@)
                &&& forall|q: int|
                    0 <= q < graph@.len() ==> population_ok(#[trigger] graph@[q], *params)
            },
            Err(GraphError::Validation(v)) => input_failure(*params, b1@, decay, seq@) == Some(v),
            Err(GraphError::NumericAnomaly { repetition, event }) => repetition < seq@.len()
                && input_valid(*params, b1@, decay, seq@),
            Err(GraphError::InternalInvariantViolation { .. }) => false,
        },
{
    match validate_input(params, b1, decay, seq) {
        Some(v) => {
            return Err(GraphError::Validation(v));
        },
        None => {},
    }
    let diffusion_on = params.d > 0;
    let mut start: Vec<Distribution> = Vec::new();
    start.push(
        Distribution {
            dist_type: DistType::Z,
            mag: Complex { re: ONE, im: 0 },
            kt_vec: Offset {
                k: Vec3 { x: 0, y: 0, z: 0 },
                dephasing: 0,
                diffusion: if diffusion_on {
                    Some(0u128)
                } else {
                    None
                },
            },
            recorded: 0,
            latent_signal: 0,
            signal: 0,
            rel_signal: 0,
            ancestors: Vec::new(),
        },
    );
    assert(population_view(start@) =~= seq![equilibrium(params.d > 0)]);
    let first = prune(&start, params.min_dist_mag, params.max_dist_count);
    let mut graph = Graph { populations: Vec::new() };
    graph.populations.push(first);
    assert(graph@ =~= seq![initial_population(*params)]);
    let n = seq.len();
    let mut r: usize = 0;
    while r < n
        invariant
            n == seq@.len(),
            r <= n,
            diffusion_on == (params.d > 0),
            input_valid(*params, b1@, decay, seq@),
            input_failure(*params, b1@, decay, seq@).is_none(),
            graph.populations@.len() == r + 1,
            populations(seq@, r as int, *params, b1@, decay) == Ok::<Seq<Seq<Node>>, GraphError>(
                graph@,
            ),
        decreases n - r,
    {
        let rep = &seq[r];
        assert(rep.valid());
        proof {
            lemma_populations_ok(seq@, r as int, *params, b1@, decay);
        }
        let prev = &graph.populations[r];
        let ghost parents = population_view(prev@);
        assert(parents == graph@[r as int]);
        assert(parents == graph@.last());
        assert(population_ok(parents, *params));
        assert forall|i: int| 0 <= i < prev@.len() implies (#[trigger] prev@[i]).mag.moderate() by {
            assert(node_bounded(parents[i]));
        }
        let pulse = Pulse { angle: rep.pulse_angle, phase: rep.pulse_phase };
        let mix = average_mixing(b1, &pulse);
        let t = compute_transitions(&mix);
        let mut c = match pulse_step(prev, r, &t, diffusion_on) {
            None => {
                proof {
                    lemma_populations_fail(seq@, r as int + 1, n as int, *params, b1@, decay);
                }
                return Err(GraphError::NumericAnomaly { repetition: r, event: None });
            },
            Some(c) => c,
        };
        proof {
            lemma_mixed_ok(parents, parents.len() as int, r, t, diffusion_on);
        }
        match event_step(&mut c, rep, params, decay) {
            Err(e) => {
                proof {
                    lemma_populations_fail(seq@, r as int + 1, n as int, *params, b1@, decay);
                }
                return Err(GraphError::NumericAnomaly { repetition: r, event: Some(e) });
            },
            Ok(_) => {},
        }
        let pop = prune(&c, params.min_dist_mag, params.max_dist_count);
        let ghost before = graph@;
        graph.populations.push(pop);
        assert(graph@ =~= before.push(population_view(pop@)));
        r += 1;
    }
    proof {
        lemma_populations_ok(seq@, n as int, *params, b1@, decay);
    }
    Ok(graph)
}

/// Once a repetition has failed, the sequence has failed with that failure.
pub proof fn lemma_populations_fail(
    seq: Seq<Repetition>,
    m: int,
    n: int,
    p: Params,
    b1: Seq<B1Sample>,
    decay: &DecayTable,
)
    requires
        m <= n,
        populations(seq, m, p, b1, decay).is_err(),
    ensures
        populations(seq, n, p, b1, decay) == populations(seq, m, p, b1, decay),
    decreases n - m,
{
    if m < n {
        lemma_populations_fail(seq, m, n - 1, p, b1, decay);
    }
}

/// `r` is what the builder returns for the given input.
pub open spec fn built(
    seq: Seq<Repetition>,
    p: Params,
    b1: Seq<B1Sample>,
    decay: &DecayTable,
    r: Result<Graph, GraphError>,
) -> bool {
    match graph_of(seq, p, b1, decay) {
        Ok(g) => r.is_ok() && r.unwrap()@ == g,
        Err(e) => r == Err::<Graph, GraphError>(e),
    }
}

/// Two runs of the builder on the same input give the same populations, with the same
/// nodes in the same order, or the same failure.
pub proof fn lemma_runs_agree(
    seq: Seq<Repetition>,
    p: Params,
    b1: Seq<B1Sample>,
    decay: &DecayTable,
    a: Result<Graph, GraphError>,
    b: Result<Graph, GraphError>,
)
    requires
        built(seq, p, b1, decay, a),
        built(seq, p, b1, decay, b),
    ensures
        a.is_ok() == b.is_ok(),
        a.is_ok() ==> a.unwrap()@ == b.unwrap()@,
        a.is_err() ==> a == b,
{
}

/// In a population that the builder produced the surviving count is at most the
/// configured maximum, and the amplitude of every survivor has at least the configured
/// minimum magnitude.
pub proof fn lemma_population_bound(pop: Seq<Node>, p: Params)
    requires
        population_ok(pop, p),
        p.min_dist_mag >= 0,
    ensures
        pop.len() <= p.max_dist_count,
        forall|i: int| 0 <= i < pop.len() ==> (#[trigger] pop[i]).mag.norm() >= p.min_dist_mag,
{
    assert forall|i: int| 0 <= i < pop.len() implies (#[trigger] pop[i]).mag.norm()
        >= p.min_dist_mag by {
        assert(eligible(pop[i], p.min_dist_mag));
        crate::fixed::lemma_norm_at_least(pop[i].mag, p.min_dist_mag as nat);
    }
}

} // verus!
