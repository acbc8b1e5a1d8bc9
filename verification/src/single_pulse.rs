//! What the builder makes of a single right-angle pulse on the equilibrium magnetization.
use crate::builder::{
    equilibrium, graph_of, initial_population, populations, survivors,
};
use crate::events::{
    advanced, all_evolve, evolve, evolve_all, evolved, exponent_ratio, lemma_evolve_bounded,
    lemma_pure_relaxation, lemma_scaled_by_one, offset_of, relaxation,
};
use crate::fixed::{Complex, ONE};
use crate::graph::{node_bounded, DistType, Edge, Node, Relation, Vec3};
use crate::prune::{
    beats, best, eligible, lemma_selection, lemma_selection_stops, pruned, selection,
};
use crate::pulse::{
    absorb, contribute, find_from, fresh_baseline, lemma_ideal_excitation, mix_parent, mixed,
    new_node, origin, same_state, transition, transitions,
};
use crate::tables::{
    lemma_decay_zero, lemma_flat_mixing, mixing, B1Sample, DecayTable, Mixing, Rotation,
    B1_SAMPLES,
};
use crate::timeline::{input_failure, sequence_failure_from, Params, Repetition};
use vstd::prelude::*;

verus! {

/// The mixing table of a perfectly homogeneous field: no sample adds any rotation.
pub open spec fn flat_table(b1: Seq<B1Sample>) -> bool {
    &&& b1.len() == B1_SAMPLES
    &&& forall|i: int|
        0 <= i < b1.len() ==> #[trigger] b1[i] == (B1Sample {
            sin: 0,
            cos_sq_half: ONE,
            sin_sq_half: 0,
        })
}

/// No event of the repetition has a gradient moment.
pub open spec fn gradient_free(rep: &Repetition) -> bool {
    forall|e: int|
        0 <= e < rep.gradm_event@.len() ==> #[trigger] rep.gradm_event@[e] == (Vec3 {
            x: 0,
            y: 0,
            z: 0,
        })
}

/// No event of the repetition takes any time.
pub open spec fn instant(rep: &Repetition) -> bool {
    forall|e: int| 0 <= e < rep.event_time@.len() ==> #[trigger] rep.event_time@[e] == 0
}

/// The amplitude that a right-angle pulse of the given phase makes of the equilibrium
/// magnetization: `-i` times the phase factor.
pub open spec fn excited_amplitude(phase: Rotation) -> Complex {
    Complex { re: phase.sin, im: (-phase.cos) as i64 }
}

/// The amplitude `a` after the first `n` events of the repetition, where it decays with
/// `t2` and with nothing else: it is multiplied, event by event, by the decay factor of
/// the time that the event takes over `t2`.
pub open spec fn decayed(a: Complex, rep: &Repetition, n: int, p: Params, decay: &DecayTable) -> Complex
    decreases n,
{
    if n <= 0 {
        a
    } else {
        decayed(a, rep, n - 1, p, decay).scaled(
            decay.factor(exponent_ratio(rep.event_time@[n - 1] as int, p.t2 as int)),
        )
    }
}

/// The input is valid and is a single repetition with a right-angle pulse, without
/// gradients, on a flat mixing table and without diffusion. The relaxation times, the
/// time of the additional dephasing among them, are whatever the parameters hold.
pub open spec fn single_right_angle(
    seq: Seq<Repetition>,
    p: Params,
    b1: Seq<B1Sample>,
    decay: &DecayTable,
) -> bool {
    &&& input_failure(p, b1, decay, seq).is_none()
    &&& seq.len() == 1
    &&& seq[0].pulse_angle == (Rotation { cos: 0, sin: ONE })
    &&& flat_table(b1)
    &&& p.d == 0
    &&& gradient_free(&seq[0])
}

/// The candidates after a right-angle pulse on the equilibrium: the baseline, and one
/// node of type `P` with the excited amplitude.
pub open spec fn excited_candidates(phase: Rotation, diffusion_on: bool) -> Seq<Node> {
    seq![
        fresh_baseline(diffusion_on),
        new_node(
            DistType::P,
            excited_amplitude(phase),
            origin(diffusion_on),
            seq![
                Edge {
                    relation: Relation::Excited,
                    rot_mat_factor: excited_amplitude(phase),
                    repetition: 0,
                    index: 0,
                },
            ],
        ),
    ]
}

/// Every transverse node of the population is of type `P` and has the amplitude `a`.
pub open spec fn all_transverse_are(pop: Seq<Node>, a: Complex) -> bool {
    forall|i: int|
        0 <= i < pop.len() && (#[trigger] pop[i]).dist_type != DistType::Z ==> pop[i].dist_type
            == DistType::P && pop[i].mag == a
}

/// The population holds at most one transverse node.
pub open spec fn at_most_one_transverse(pop: Seq<Node>) -> bool {
    forall|i: int, j: int|
        0 <= i < pop.len() && 0 <= j < pop.len() && (#[trigger] pop[i]).dist_type != DistType::Z
            && (#[trigger] pop[j]).dist_type != DistType::Z ==> i == j
}

/// The population holds a node of type `P`.
pub open spec fn has_transverse(pop: Seq<Node>) -> bool {
    exists|i: int| 0 <= i < pop.len() && (#[trigger] pop[i]).dist_type == DistType::P
}

/// Every longitudinal node of the population has the amplitude zero.
pub open spec fn longitudinal_empty(pop: Seq<Node>) -> bool {
    forall|i: int|
        0 <= i < pop.len() && (#[trigger] pop[i]).dist_type == DistType::Z ==> pop[i].mag.is_zero()
}

/// Population 0 holds the equilibrium where it passes the pruning step, and is empty
/// where it does not.
pub proof fn lemma_initial_population(p: Params)
    ensures
        initial_population(p) == if eligible(equilibrium(p.d > 0), p.min_dist_mag)
            && p.max_dist_count >= 1 {
            seq![equilibrium(p.d > 0)]
        } else {
            Seq::<Node>::empty()
        },
{
    let c = seq![equilibrium(p.d > 0)];
    let min = p.min_dist_mag;
    let max = p.max_dist_count as int;
    let none = Seq::<int>::empty();
    assert(selection(c, min, 0) == none);
    assert(best(c, min, none, 0) == -1);
    if max == 0 {
        assert(pruned(c, min, p.max_dist_count) =~= Seq::<Node>::empty());
    } else if !eligible(c[0], min) {
        assert(best(c, min, none, 1) == -1);
        lemma_selection_stops(c, min, 0, max);
        assert(pruned(c, min, p.max_dist_count) =~= Seq::<Node>::empty());
    } else {
        assert(!none.contains(0));
        assert(best(c, min, none, 1) == 0);
        let one = none.push(0);
        assert(selection(c, min, 1) == one);
        assert(one[0] == 0);
        assert(one.contains(0));
        assert(best(c, min, one, 0) == -1);
        assert(best(c, min, one, 1) == -1);
        lemma_selection_stops(c, min, 1, max);
        assert(pruned(c, min, p.max_dist_count) =~= c);
    }
}

/// A right-angle pulse on the equilibrium, over a flat table, leaves the baseline as it
/// was and makes one node of type `P` with the excited amplitude.
pub proof fn lemma_excited_candidates(phase: Rotation, b1: Seq<B1Sample>, diffusion_on: bool)
    requires
        phase.normalized(),
        flat_table(b1),
    ensures
        mixed(
            seq![equilibrium(diffusion_on)],
            1,
            0,
            transitions(
                mixing(b1, crate::tables::Pulse { angle: Rotation { cos: 0, sin: ONE }, phase }),
            ),
            diffusion_on,
        ) == Some(excited_candidates(phase, diffusion_on)),
{
    let pulse = crate::tables::Pulse { angle: Rotation { cos: 0, sin: ONE }, phase };
    lemma_flat_mixing(b1, pulse);
    lemma_ideal_excitation(phase);
    let t = transitions(Mixing { sin: ONE, cos: 0, phase });
    let a0 = excited_amplitude(phase);
    let prev = seq![equilibrium(diffusion_on)];
    let parent = prev[0];
    let c = seq![fresh_baseline(diffusion_on)];
    assert(mixed(prev, 0, 0, t, diffusion_on) == Some(c));
    assert(contribute(c, parent, 0, 0, DistType::Z, t) == Some(c));
    // the excited amplitude is not zero, since the phase is the pair of an angle
    assert(!a0.is_zero()) by {
        assert(ONE * ONE == 0x1000_0000_0000_0000) by (nonlinear_arith)
            requires
                ONE == 0x4000_0000,
        ;
        if phase.sin == 0 && phase.cos == 0 {
            assert(phase.square_sum() == 0) by (nonlinear_arith)
                requires
                    phase.sin == 0,
                    phase.cos == 0,
                    phase.square_sum() == phase.cos * phase.cos + phase.sin * phase.sin,
            ;
        }
    }
    assert(transition(DistType::Z, DistType::P, t) == Some((Relation::Excited, a0)));
    // the equilibrium amplitude is one: the product is the coefficient itself
    assert(parent.mag.product(a0) == (a0.re as int, a0.im as int)) by {
        assert(ONE * a0.re - 0 * a0.im == a0.re * 0x4000_0000) by (nonlinear_arith)
            requires
                ONE == 0x4000_0000,
        ;
        assert(ONE * a0.im + 0 * a0.re == a0.im * 0x4000_0000) by (nonlinear_arith)
            requires
                ONE == 0x4000_0000,
        ;
    }
    let edge = Edge { relation: Relation::Excited, rot_mat_factor: a0, repetition: 0, index: 0 };
    assert(Complex::narrow(a0.re as int, a0.im as int) == Some(a0));
    assert(!same_state(c[0], DistType::P, parent.kt_vec.k));
    assert(find_from(c, DistType::P, parent.kt_vec.k, 1) == 1);
    assert(find_from(c, DistType::P, parent.kt_vec.k, 0) == 1);
    let c2 = c.push(new_node(DistType::P, a0, parent.kt_vec, seq![edge]));
    assert(absorb(c, DistType::P, parent.kt_vec, a0, edge) == Some(c2));
    assert(contribute(c, parent, 0, 0, DistType::P, t) == Some(c2));
    assert(contribute(c2, parent, 0, 0, DistType::M, t) == Some(c2));
    assert(mix_parent(c, parent, 0, 0, t) == Some(c2));
    assert(c2 =~= excited_candidates(phase, diffusion_on));
}

/// What holds of candidates before the events of a repetition without gradients: they
/// rest at the origin of k-space, with their amplitudes in range.
pub open spec fn at_rest(c: Seq<Node>) -> bool {
    forall|i: int|
        0 <= i < c.len() ==> (#[trigger] c[i]).kt_vec.k == (Vec3 { x: 0, y: 0, z: 0 })
            && c[i].mag.in_range()
}

/// Without gradients and without diffusion the events never fail, they keep every
/// candidate at rest, and a transverse candidate decays with `t2` and with nothing else,
/// whatever the time of the additional dephasing.
pub proof fn lemma_evolved_at_rest(
    c: Seq<Node>,
    rep: &Repetition,
    n: int,
    p: Params,
    decay: &DecayTable,
)
    requires
        at_rest(c),
        decay.valid(),
        p.d == 0,
        gradient_free(rep),
        0 <= n <= rep.gradm_event@.len(),
    ensures
        match evolved(c, rep, n, p, decay) {
            Ok(s) => {
                &&& s.len() == c.len()
                &&& at_rest(s)
                &&& forall|i: int|
                    0 <= i < s.len() ==> (#[trigger] s[i]).dist_type == c[i].dist_type && (
                    c[i].dist_type != DistType::Z ==> s[i].mag == decayed(c[i].mag, rep, n, p, decay))
            },
            Err(_) => false,
        },
    decreases n,
{
    if n > 0 {
        lemma_evolved_at_rest(c, rep, n - 1, p, decay);
        let s = evolved(c, rep, n - 1, p, decay).unwrap();
        let dt = rep.event_time@[n - 1];
        let g = rep.gradm_event@[n - 1];
        let readout = rep.adc_mask@[n - 1];
        assert(g == (Vec3 { x: 0, y: 0, z: 0 }));
        assert forall|i: int| 0 <= i < s.len() implies evolve(
            #[trigger] s[i],
            i == 0,
            dt,
            g,
            readout,
            p,
            decay,
        ).is_some() by {
            assert(offset_of(advanced(s[i].dist_type, s[i].kt_vec.k, g)).is_some());
        }
        assert(all_evolve(s, dt, g, readout, p, decay));
        let s2 = evolve_all(s, dt, g, readout, p, decay).unwrap();
        assert forall|i: int| 0 <= i < s2.len() implies (#[trigger] s2[i]).kt_vec.k == (Vec3 {
            x: 0,
            y: 0,
            z: 0,
        }) && s2[i].mag.in_range() && s2[i].dist_type == c[i].dist_type && (c[i].dist_type
            != DistType::Z ==> s2[i].mag == decayed(c[i].mag, rep, n, p, decay)) by {
            assert(s[i].kt_vec.k == (Vec3 { x: 0, y: 0, z: 0 }));
            assert(node_bounded(s[i]));
            lemma_evolve_bounded(s[i], i == 0, dt, g, readout, p, decay);
            lemma_pure_relaxation(s[i], i == 0, dt, g, readout, p, decay);
            assert(s2[i] == evolve(s[i], i == 0, dt, g, readout, p, decay).unwrap());
        }
    }
}

/// Events that take no time change no amplitude, where the baseline is empty.
pub proof fn lemma_evolved_instant(
    c: Seq<Node>,
    rep: &Repetition,
    n: int,
    p: Params,
    decay: &DecayTable,
)
    requires
        at_rest(c),
        decay.valid(),
        p.d == 0,
        gradient_free(rep),
        instant(rep),
        0 <= n <= rep.gradm_event@.len(),
        n <= rep.event_time@.len(),
        c.len() >= 1,
        c[0].mag.is_zero(),
    ensures
        match evolved(c, rep, n, p, decay) {
            Ok(s) => {
                &&& s.len() == c.len()
                &&& forall|i: int| 0 <= i < s.len() ==> (#[trigger] s[i]).mag == c[i].mag
            },
            Err(_) => false,
        },
    decreases n,
{
    lemma_evolved_at_rest(c, rep, n, p, decay);
    if n > 0 {
        lemma_evolved_instant(c, rep, n - 1, p, decay);
        lemma_evolved_at_rest(c, rep, n - 1, p, decay);
        let s = evolved(c, rep, n - 1, p, decay).unwrap();
        let dt = rep.event_time@[n - 1];
        let g = rep.gradm_event@[n - 1];
        let readout = rep.adc_mask@[n - 1];
        assert(dt == 0);
        let s2 = evolve_all(s, dt, g, readout, p, decay).unwrap();
        lemma_decay_zero(decay);
        assert forall|i: int| 0 <= i < s2.len() implies (#[trigger] s2[i]).mag == c[i].mag by {
            assert(s[i].mag == c[i].mag);
            assert(s[i].mag.in_range());
            assert(relaxation(s[i].dist_type, dt, p, decay) == ONE);
            lemma_pure_relaxation(s[i], i == 0, dt, g, readout, p, decay);
            lemma_scaled_by_one(s[i].mag);
            assert(s2[i] == evolve(s[i], i == 0, dt, g, readout, p, decay).unwrap());
        }
    }
}

/// Events that take no time leave an amplitude that decays with `t2` as it was.
pub proof fn lemma_decayed_instant(a: Complex, rep: &Repetition, n: int, p: Params, decay: &DecayTable)
    requires
        decay.valid(),
        instant(rep),
        0 <= n <= rep.event_time@.len(),
    ensures
        decayed(a, rep, n, p, decay) == a,
    decreases n,
{
    if n > 0 {
        lemma_decayed_instant(a, rep, n - 1, p, decay);
        assert(rep.event_time@[n - 1] == 0);
        lemma_decay_zero(decay);
        lemma_scaled_by_one(a);
    }
}

/// The first repetition of a valid sequence has sequences of one length and a pulse that
/// is the pair of an angle.
pub proof fn lemma_first_repetition_valid(
    seq: Seq<Repetition>,
    p: Params,
    b1: Seq<B1Sample>,
    decay: &DecayTable,
)
    requires
        input_failure(p, b1, decay, seq).is_none(),
        seq.len() >= 1,
    ensures
        p.valid(),
        decay.valid(),
        seq[0].lengths_agree(),
        seq[0].pulse_angle.normalized(),
        seq[0].pulse_phase.normalized(),
{
    assert(sequence_failure_from(seq, 0).is_none());
    assert(seq[0].failure(0).is_none());
}

/// Pure relaxation of transverse magnetization.
///
/// A single right-angle pulse on the equilibrium, followed by events without gradients,
/// without diffusion and over a flat mixing table, always gives a graph. In the
/// population of the repetition every transverse node is of type `P` and has the excited
/// amplitude decayed with `t2` alone: the time of the additional dephasing has no part in
/// it. There is at most one such node; and there is one wherever the equilibrium and
/// the decayed amplitude pass the threshold and two nodes may survive.
pub proof fn lemma_transverse_relaxation(
    seq: Seq<Repetition>,
    p: Params,
    b1: Seq<B1Sample>,
    decay: &DecayTable,
)
    requires
        single_right_angle(seq, p, b1, decay),
    ensures
        match graph_of(seq, p, b1, decay) {
            Ok(g) => {
                let a = decayed(
                    excited_amplitude(seq[0].pulse_phase),
                    &seq[0],
                    seq[0].event_time@.len() as int,
                    p,
                    decay,
                );
                &&& g.len() == 2
                &&& all_transverse_are(g[1], a)
                &&& at_most_one_transverse(g[1])
                &&& p.max_dist_count >= 2 && p.min_dist_mag <= ONE && a.norm_sqr()
                    >= p.min_dist_mag * p.min_dist_mag ==> has_transverse(g[1])
            },
            Err(_) => false,
        },
{
    lemma_first_repetition_valid(seq, p, b1, decay);
    lemma_initial_population(p);
    let on = p.d > 0;
    if eligible(equilibrium(on), p.min_dist_mag) && p.max_dist_count >= 1 {
        lemma_single_population(seq, p, b1, decay);
        let s = evolved(
            excited_candidates(seq[0].pulse_phase, on),
            &seq[0],
            seq[0].event_time@.len() as int,
            p,
            decay,
        ).unwrap();
        lemma_survivors_of_two(s, p.min_dist_mag, p.max_dist_count);
    } else {
        lemma_graph_of_one(seq, p, b1, decay);
        lemma_empty_survivors(&seq[0], p, b1, decay);
        // the equilibrium did not pass the threshold: two can survive only below it
        if p.min_dist_mag <= ONE {
            assert(p.min_dist_mag * p.min_dist_mag <= ONE * ONE + 0 * 0) by (nonlinear_arith)
                requires
                    0 <= p.min_dist_mag <= ONE,
            ;
        }
    }
}

/// The survivors of a repetition that starts from the equilibrium alone, with a
/// right-angle pulse and without gradients: those of two candidates, the baseline and the
/// excited node, after the events.
pub proof fn lemma_single_survivors(rep: &Repetition, p: Params, b1: Seq<B1Sample>, decay: &DecayTable)
    requires
        rep.lengths_agree(),
        rep.pulse_angle == (Rotation { cos: 0, sin: ONE }),
        rep.pulse_phase.normalized(),
        flat_table(b1),
        decay.valid(),
        p.d == 0,
        gradient_free(rep),
    ensures
        match evolved(
            excited_candidates(rep.pulse_phase, p.d > 0),
            rep,
            rep.event_time@.len() as int,
            p,
            decay,
        ) {
            Ok(s) => {
                &&& survivors(seq![equilibrium(p.d > 0)], 0, rep, p, b1, decay) == Ok::<
                    Seq<Node>,
                    Option<usize>,
                >(pruned(s, p.min_dist_mag, p.max_dist_count))
                &&& s.len() == 2
                &&& at_rest(s)
                &&& s[0].dist_type == DistType::Z
                &&& s[1].dist_type == DistType::P
                &&& s[1].mag == decayed(
                    excited_amplitude(rep.pulse_phase),
                    rep,
                    rep.event_time@.len() as int,
                    p,
                    decay,
                )
            },
            Err(_) => false,
        },
{
    let n = rep.event_time@.len() as int;
    let on = p.d > 0;
    let phase = rep.pulse_phase;
    let p0 = seq![equilibrium(on)];
    lemma_excited_candidates(phase, b1, on);
    let c = excited_candidates(phase, on);
    assert(rep.pulse() == (crate::tables::Pulse { angle: Rotation { cos: 0, sin: ONE }, phase }));
    assert(p0.len() == 1);
    assert(at_rest(c)) by {
        assert(c[0] == fresh_baseline(on));
        assert(c[1].mag == excited_amplitude(phase));
    }
    lemma_evolved_at_rest(c, rep, n, p, decay);
}

/// The survivors of a repetition that starts from nothing, without gradients: all of
/// them are longitudinal.
pub proof fn lemma_empty_survivors(rep: &Repetition, p: Params, b1: Seq<B1Sample>, decay: &DecayTable)
    requires
        rep.lengths_agree(),
        decay.valid(),
        p.d == 0,
        gradient_free(rep),
    ensures
        match survivors(Seq::<Node>::empty(), 0, rep, p, b1, decay) {
            Ok(pop) => forall|i: int|
                0 <= i < pop.len() ==> (#[trigger] pop[i]).dist_type == DistType::Z,
            Err(_) => false,
        },
{
    let n = rep.event_time@.len() as int;
    let on = p.d > 0;
    let t = transitions(mixing(b1, rep.pulse()));
    let p0 = Seq::<Node>::empty();
    let c = seq![fresh_baseline(on)];
    assert(mixed(p0, 0, 0, t, on) == Some(c));
    assert(at_rest(c)) by {
        assert(c[0] == fresh_baseline(on));
    }
    lemma_evolved_at_rest(c, rep, n, p, decay);
    let s = evolved(c, rep, n, p, decay).unwrap();
    let pop = pruned(s, p.min_dist_mag, p.max_dist_count);
    lemma_selection(s, p.min_dist_mag, p.max_dist_count as int);
    let sel = selection(s, p.min_dist_mag, p.max_dist_count as int);
    assert forall|i: int| 0 <= i < pop.len() implies (#[trigger] pop[i]).dist_type
        == DistType::Z by {
        assert(0 <= sel[i] < s.len());
        assert(pop[i] == s[sel[i]]);
    }
}

/// The graph of a valid sequence of one repetition: population 0, and the survivors of
/// the repetition.
pub proof fn lemma_graph_of_one(seq: Seq<Repetition>, p: Params, b1: Seq<B1Sample>, decay: &DecayTable)
    requires
        input_failure(p, b1, decay, seq).is_none(),
        seq.len() == 1,
    ensures
        graph_of(seq, p, b1, decay) == match survivors(
            initial_population(p),
            0,
            &seq[0],
            p,
            b1,
            decay,
        ) {
            Ok(pop) => Ok::<Seq<Seq<Node>>, crate::error::GraphError>(
                seq![initial_population(p), pop],
            ),
            Err(event) => Err::<Seq<Seq<Node>>, crate::error::GraphError>(
                crate::error::GraphError::NumericAnomaly { repetition: 0, event },
            ),
        },
{
    let p0 = initial_population(p);
    assert(populations(seq, 0, p, b1, decay) == Ok::<Seq<Seq<Node>>, crate::error::GraphError>(
        seq![p0],
    ));
    assert(seq![p0].last() == p0);
    match survivors(p0, 0, &seq[0], p, b1, decay) {
        Ok(pop) => {
            assert(seq![p0].push(pop) =~= seq![p0, pop]);
        },
        Err(_) => {},
    }
}

/// Where the equilibrium passes the pruning step, the graph of a single right-angle
/// pulse has the equilibrium as population 0, and as population 1 the survivors of two
/// candidates: the baseline and the excited node, after the events.
pub proof fn lemma_single_population(
    seq: Seq<Repetition>,
    p: Params,
    b1: Seq<B1Sample>,
    decay: &DecayTable,
)
    requires
        single_right_angle(seq, p, b1, decay),
        eligible(equilibrium(p.d > 0), p.min_dist_mag),
        p.max_dist_count >= 1,
    ensures
        match evolved(
            excited_candidates(seq[0].pulse_phase, p.d > 0),
            &seq[0],
            seq[0].event_time@.len() as int,
            p,
            decay,
        ) {
            Ok(s) => {
                &&& graph_of(seq, p, b1, decay) == Ok::<Seq<Seq<Node>>, crate::error::GraphError>(
                    seq![
                        seq![equilibrium(p.d > 0)],
                        pruned(s, p.min_dist_mag, p.max_dist_count),
                    ],
                )
                &&& s.len() == 2
                &&& at_rest(s)
                &&& s[0].dist_type == DistType::Z
                &&& s[1].dist_type == DistType::P
                &&& s[1].mag == decayed(
                    excited_amplitude(seq[0].pulse_phase),
                    &seq[0],
                    seq[0].event_time@.len() as int,
                    p,
                    decay,
                )
            },
            Err(_) => false,
        },
{
    lemma_first_repetition_valid(seq, p, b1, decay);
    lemma_initial_population(p);
    lemma_graph_of_one(seq, p, b1, decay);
    lemma_single_survivors(&seq[0], p, b1, decay);
}

/// Ideal excitation.
///
/// A single right-angle pulse on the equilibrium, over a flat mixing table, without
/// diffusion and followed only by events that take no time and have no gradient, gives
/// exactly one transverse node wherever the excited amplitude passes the threshold. The
/// node is of type `P` and carries the full amplitude: the equilibrium amplitude turned
/// by the phase, of squared magnitude `cos * cos + sin * sin` of the phase, which
/// validation holds within `ROTATION_TOLERANCE` of `ONE * ONE`; where the phase is an
/// exact pair, the magnitude is `ONE`. Every longitudinal node that survives is empty.
pub proof fn lemma_ideal_excitation_graph(
    seq: Seq<Repetition>,
    p: Params,
    b1: Seq<B1Sample>,
    decay: &DecayTable,
)
    requires
        single_right_angle(seq, p, b1, decay),
        instant(&seq[0]),
        p.max_dist_count >= 1,
        p.min_dist_mag <= ONE,
        p.min_dist_mag * p.min_dist_mag <= seq[0].pulse_phase.square_sum(),
    ensures
        match graph_of(seq, p, b1, decay) {
            Ok(g) => {
                let a = excited_amplitude(seq[0].pulse_phase);
                &&& g.len() == 2
                &&& has_transverse(g[1])
                &&& at_most_one_transverse(g[1])
                &&& all_transverse_are(g[1], a)
                &&& longitudinal_empty(g[1])
                &&& a.norm_sqr() == seq[0].pulse_phase.square_sum()
                &&& ONE - 2 <= a.norm() <= ONE
                &&& seq[0].pulse_phase.square_sum() == ONE * ONE ==> a.norm() == ONE
            },
            Err(_) => false,
        },
{
    lemma_first_repetition_valid(seq, p, b1, decay);
    let rep = &seq[0];
    let on = p.d > 0;
    let phase = rep.pulse_phase;
    lemma_excited_magnitude(phase);
    lemma_equilibrium_passes(p.min_dist_mag, on);
    lemma_single_population(seq, p, b1, decay);
    lemma_instant_candidates(rep, p, decay);
    lemma_square_sum_positive(phase);
    let s = evolved(excited_candidates(phase, on), rep, rep.event_time@.len() as int, p, decay).unwrap();
    lemma_sole_transverse(s, p.min_dist_mag, p.max_dist_count);
}

/// After events that take no time the baseline is still empty, and the excited node
/// still has the excited amplitude.
pub proof fn lemma_instant_candidates(rep: &Repetition, p: Params, decay: &DecayTable)
    requires
        rep.lengths_agree(),
        rep.pulse_phase.normalized(),
        decay.valid(),
        p.d == 0,
        gradient_free(rep),
        instant(rep),
    ensures
        match evolved(
            excited_candidates(rep.pulse_phase, p.d > 0),
            rep,
            rep.event_time@.len() as int,
            p,
            decay,
        ) {
            Ok(s) => s.len() == 2 && s[0].mag.is_zero() && s[1].mag == excited_amplitude(
                rep.pulse_phase,
            ),
            Err(_) => false,
        },
{
    let c = excited_candidates(rep.pulse_phase, p.d > 0);
    assert(c[0] == fresh_baseline(p.d > 0));
    assert(c[1].mag == excited_amplitude(rep.pulse_phase));
    assert(at_rest(c));
    lemma_evolved_instant(c, rep, rep.event_time@.len() as int, p, decay);
    let s = evolved(c, rep, rep.event_time@.len() as int, p, decay).unwrap();
    assert(s[0].mag == c[0].mag);
    assert(s[1].mag == c[1].mag);
}

/// Of two candidates, an empty longitudinal one and a node of type `P` that passes the
/// threshold, the node of type `P` survives wherever any node may, as the only transverse
/// node; and whatever longitudinal node survives is empty.
pub proof fn lemma_sole_transverse(s: Seq<Node>, min: i64, max: usize)
    requires
        s.len() == 2,
        s[0].dist_type == DistType::Z,
        s[0].mag.is_zero(),
        s[1].dist_type == DistType::P,
        s[1].mag.norm_sqr() > 0,
        eligible(s[1], min),
        max >= 1,
    ensures
        has_transverse(pruned(s, min, max)),
        at_most_one_transverse(pruned(s, min, max)),
        all_transverse_are(pruned(s, min, max), s[1].mag),
        longitudinal_empty(pruned(s, min, max)),
{
    assert(s[0].mag.norm_sqr() == 0) by {
        assert(0 * 0 + 0 * 0 == 0);
    }
    assert(beats(s, 1, 0));
    lemma_survivors_of_two(s, min, max);
    let pop = pruned(s, min, max);
    let k = choose|k: int| 0 <= k < pop.len() && #[trigger] pop[k] == s[1];
    assert(pop[k].dist_type == DistType::P);
}

/// The equilibrium amplitude passes every threshold of at most `ONE`.
pub proof fn lemma_equilibrium_passes(min: i64, diffusion_on: bool)
    requires
        min <= ONE,
    ensures
        min < 0 || eligible(equilibrium(diffusion_on), min),
{
    if min >= 0 {
        assert(min * min <= ONE * ONE + 0 * 0) by (nonlinear_arith)
            requires
                0 <= min <= ONE,
        ;
    }
}

/// The sum of the squares of a pulse phase that validation accepts is positive.
pub proof fn lemma_square_sum_positive(phase: Rotation)
    requires
        phase.normalized(),
    ensures
        phase.square_sum() > 0,
{
    assert(ONE * ONE == 0x1000_0000_0000_0000) by (nonlinear_arith)
        requires
            ONE == 0x4000_0000,
    ;
}

/// Of two candidates, the first longitudinal and the second transverse, the survivors
/// hold the second at most once; and they hold it where it passes the threshold and
/// either two may survive or it ranks before the first.
pub proof fn lemma_survivors_of_two(s: Seq<Node>, min: i64, max: usize)
    requires
        s.len() == 2,
        s[0].dist_type == DistType::Z,
        s[1].dist_type != DistType::Z,
    ensures
        forall|i: int|
            0 <= i < pruned(s, min, max).len() && (#[trigger] pruned(s, min, max)[i]).dist_type
                != DistType::Z ==> pruned(s, min, max)[i] == s[1],
        forall|i: int, j: int|
            0 <= i < pruned(s, min, max).len() && 0 <= j < pruned(s, min, max).len() && (
            #[trigger] pruned(s, min, max)[i]).dist_type != DistType::Z && (#[trigger] pruned(
                s,
                min,
                max,
            )[j]).dist_type != DistType::Z ==> i == j,
        forall|i: int|
            0 <= i < pruned(s, min, max).len() && (#[trigger] pruned(s, min, max)[i]).dist_type
                == DistType::Z ==> pruned(s, min, max)[i] == s[0],
        eligible(s[1], min) && (max >= 2 || (max >= 1 && beats(s, 1, 0))) ==> exists|i: int|
            0 <= i < pruned(s, min, max).len() && #[trigger] pruned(s, min, max)[i] == s[1],
{
    let sel = selection(s, min, max as int);
    let pop = pruned(s, min, max);
    lemma_selection(s, min, max as int);
    assert forall|i: int| 0 <= i < pop.len() implies (#[trigger] pop[i]) == s[sel[i]] && 0
        <= sel[i] < 2 by {
        assert(0 <= sel[i] < s.len());
    }
    assert forall|i: int, j: int|
        0 <= i < pop.len() && 0 <= j < pop.len() && (#[trigger] pop[i]).dist_type != DistType::Z
            && (#[trigger] pop[j]).dist_type != DistType::Z implies i == j by {
        assert(pop[i] == s[sel[i]] && pop[j] == s[sel[j]]);
        assert(sel[i] == 1 && sel[j] == 1);
        if i < j {
            assert(beats(s, sel[i], sel[j]));
        } else if j < i {
            assert(beats(s, sel[j], sel[i]));
        }
    }
    if eligible(s[1], min) && (max >= 2 || (max >= 1 && beats(s, 1, 0))) {
        if !sel.contains(1) {
            // every place of the selection is then the first candidate
            assert(eligible(s[1], min));
            assert(sel.len() == max);
            assert(beats(s, sel.last(), 1));
            assert forall|k: int| 0 <= k < sel.len() implies #[trigger] sel[k] == 0 by {
                assert(0 <= sel[k] < s.len());
                if sel[k] == 1 {
                    assert(sel.contains(1));
                }
            }
            assert(sel.last() == 0);
            if max >= 2 {
                assert(beats(s, sel[0], sel[1]));
            }
            assert(false);
        }
        let k = choose|k: int| 0 <= k < sel.len() && sel[k] == 1;
        assert(pop[k] == s[1]);
    }
}

/// A pulse phase that validation accepts passes every threshold of at most `ONE - 2`.
pub proof fn lemma_normalized_passes(phase: Rotation, min: i64)
    requires
        phase.normalized(),
        0 <= min <= ONE - 2,
    ensures
        min * min <= phase.square_sum(),
{
    assert(min * min <= 0x1000_0000_0000_0000 - 0x8000_0000) by (nonlinear_arith)
        requires
            0 <= min <= 0x4000_0000 - 2,
    ;
    assert(ONE * ONE == 0x1000_0000_0000_0000) by (nonlinear_arith)
        requires
            ONE == 0x4000_0000,
    ;
}

/// The excited amplitude of a pulse phase that validation accepts has a magnitude
/// between `ONE - 2` and `ONE`: the full amplitude, up to rounding.
pub proof fn lemma_excited_magnitude(phase: Rotation)
    requires
        phase.normalized(),
    ensures
        ONE - 2 <= excited_amplitude(phase).norm() <= ONE,
        excited_amplitude(phase).norm_sqr() == phase.square_sum(),
        phase.square_sum() == ONE * ONE ==> excited_amplitude(phase).norm() == ONE,
{
    let a = excited_amplitude(phase);
    let n = a.norm_sqr();
    let r = a.norm();
    assert(n == phase.square_sum()) by {
        assert((-phase.cos) * (-phase.cos) == phase.cos * phase.cos) by (nonlinear_arith);
    }
    assert(ONE * ONE == 0x1000_0000_0000_0000) by (nonlinear_arith)
        requires
            ONE == 0x4000_0000,
    ;
    crate::fixed::lemma_sqrt_floor_exists(n);
    if r < ONE - 2 {
        assert((r + 1) * (r + 1) <= 0x1000_0000_0000_0000 - 0x8000_0000) by (nonlinear_arith)
            requires
                0 <= r + 1 <= 0x4000_0000 - 2,
        ;
    }
    if r > ONE {
        assert(r * r > 0x1000_0000_0000_0000 + 0x8000_0000) by (nonlinear_arith)
            requires
                r >= 0x4000_0000 + 1,
        ;
    }
    if phase.square_sum() == ONE * ONE && r != ONE {
        assert((r + 1) * (r + 1) <= 0x1000_0000_0000_0000) by (nonlinear_arith)
            requires
                0 <= r + 1 <= 0x4000_0000,
        ;
    }
}

/// Analysis keeps what these laws say of a population: the graph that is built and then
/// analyzed has the same transverse and longitudinal nodes, with the same amplitudes.
pub proof fn lemma_analysis_keeps_population(g: Seq<Seq<Node>>, r: int, a: Complex)
    requires
        0 <= r < g.len(),
    ensures
        all_transverse_are(g[r], a) ==> all_transverse_are(crate::analyzer::analyzed(g)[r], a),
        at_most_one_transverse(g[r]) ==> at_most_one_transverse(crate::analyzer::analyzed(g)[r]),
        has_transverse(g[r]) ==> has_transverse(crate::analyzer::analyzed(g)[r]),
        longitudinal_empty(g[r]) ==> longitudinal_empty(crate::analyzer::analyzed(g)[r]),
{
    let h = crate::analyzer::analyzed(g);
    assert forall|i: int| 0 <= i < g[r].len() implies (#[trigger] h[r][i]).dist_type
        == g[r][i].dist_type && h[r][i].mag == g[r][i].mag by {}
    if has_transverse(g[r]) {
        let i = choose|i: int| 0 <= i < g[r].len() && (#[trigger] g[r][i]).dist_type == DistType::P;
        assert(h[r][i].dist_type == DistType::P);
    }
    if all_transverse_are(g[r], a) {
        assert forall|i: int|
            0 <= i < h[r].len() && (#[trigger] h[r][i]).dist_type != DistType::Z implies h[r][i].dist_type
            == DistType::P && h[r][i].mag == a by {
            assert(g[r][i].dist_type != DistType::Z);
        }
    }
    if at_most_one_transverse(g[r]) {
        assert forall|i: int, j: int|
            0 <= i < h[r].len() && 0 <= j < h[r].len() && (#[trigger] h[r][i]).dist_type
                != DistType::Z && (#[trigger] h[r][j]).dist_type != DistType::Z implies i == j by {
            assert(g[r][i].dist_type != DistType::Z && g[r][j].dist_type != DistType::Z);
        }
    }
    if longitudinal_empty(g[r]) {
        assert forall|i: int|
            0 <= i < h[r].len() && (#[trigger] h[r][i]).dist_type == DistType::Z implies h[r][i].mag.is_zero() by {
            assert(g[r][i].dist_type == DistType::Z);
        }
    }
}

} // verus!
