//! Prediction of the magnetization pathways of a pulse sequence that carry signal.
//!
//! A sequence is a list of repetitions, each an RF pulse followed by events with a
//! duration, a gradient moment and a readout flag. From it the builder grows a graph of
//! distributions: population 0 holds the equilibrium magnetization, and population `r`
//! the distributions that survive repetition `r`. Each distribution has ancestor edges to
//! the distributions of the population before that it was mixed from. The analyzer then
//! assigns to every distribution the signal that it and its descendants emit.
//!
//! All quantities are integers. Amplitudes, mixing coefficients and decay factors are
//! fixed-point numbers with thirty fractional bits; times are whole ticks and k-space
//! offsets whole grid steps. Whatever needs a transcendental function comes in from
//! outside: a pulse as the cosine and sine of its angles, the field inhomogeneity as a
//! table of mixing coefficients, and exponential decay as a table of samples.
//!
//! Amplitudes decay with `t1` and `t2` only. The additional dephasing with `t2dash` is
//! reversible: each distribution carries the time over which it has dephased, which
//! refocusing runs backward, and a readout records the magnitude of the amplitude
//! weighted by the decay with `t2dash` over that time.
use vstd::prelude::*;

pub mod analyzer;
pub mod builder;
pub mod error;
pub mod events;
pub mod fixed;
pub mod graph;
pub mod prune;
pub mod pulse;
pub mod single_pulse;
pub mod tables;
pub mod timeline;

use crate::analyzer::{analyze_graph, analyzed, lemma_analysis_keeps_well_formed};
use crate::builder::{comp_graph, graph_of, population_ok};
use crate::error::GraphError;
use crate::graph::{node_bounded, well_formed, Graph, Node};
use crate::prune::eligible;
use crate::tables::{B1Sample, DecayTable};
use crate::timeline::{Params, Repetition};

verus! {

/// Analysis leaves every population within the configured bounds.
pub proof fn lemma_analysis_keeps_bounds(g: Seq<Seq<Node>>, p: Params)
    requires
        forall|q: int| 0 <= q < g.len() ==> population_ok(#[trigger] g[q], p),
    ensures
        forall|q: int| 0 <= q < g.len() ==> population_ok(#[trigger] analyzed(g)[q], p),
{
    let h = analyzed(g);
    assert forall|q: int| 0 <= q < g.len() implies population_ok(#[trigger] h[q], p) by {
        assert(population_ok(g[q], p));
        assert forall|i: int| 0 <= i < h[q].len() implies eligible(
            #[trigger] h[q][i],
            p.min_dist_mag,
        ) && node_bounded(h[q][i]) by {
            assert(eligible(g[q][i], p.min_dist_mag));
            assert(node_bounded(g[q][i]));
        }
    }
}

/// Builds the graph of a sequence and analyzes it.
///
/// Returns the failure of the builder where there is one. Else the graph returned is the
/// one that the builder produces, with the signals of every node assigned: it is well
/// formed, has one population more than the sequence has repetitions, and each of its
/// populations is within the configured bounds.
pub fn compute_graph(seq: &Vec<Repetition>, params: &Params, b1: &Vec<B1Sample>, decay: &DecayTable) -> (r:
    Result<Graph, GraphError>)
    ensures
        match graph_of(seq@, *params, b1@, decay) {
            Ok(g) => r.is_ok() && r.unwrap()@ == analyzed(g),
            Err(e) => r == Err::<Graph, GraphError>(e),
        },
        match r {
            Ok(graph) => {
                &&& graph@.len() == seq@.len() + 1
                &&& well_formed(graph@)
                &&& forall|q: int|
                    0 <= q < graph@.len() ==> population_ok(#[trigger] graph@[q], *params)
            },
            Err(GraphError::InternalInvariantViolation { .. }) => false,
            Err(_) => true,
        },
{
    match comp_graph(seq, params, b1, decay) {
        Err(e) => Err(e),
        Ok(graph) => {
            let mut graph = graph;
            proof {
                lemma_analysis_keeps_well_formed(graph@);
                lemma_analysis_keeps_bounds(graph@, *params);
            }
            analyze_graph(&mut graph);
            Ok(graph)
        },
    }
}

} // verus!
