use prepass::builder::comp_graph;
use prepass::error::{GraphError, ValidationError};
use prepass::fixed::{Complex, ONE};
use prepass::graph::{DistType, Graph, Relation, Vec3};
use prepass::tables::{B1Sample, DecayTable, Rotation, B1_SAMPLES};
use prepass::timeline::{Params, Repetition, K_LIMIT, TIME_LIMIT};

fn flat_table() -> Vec<B1Sample> {
    vec![B1Sample::flat(); B1_SAMPLES]
}

fn decay_table() -> DecayTable {
    let step: u64 = (ONE as u64) / 256;
    let mut samples = Vec::new();
    for i in 0..(16 * 256 + 1) {
        let x = (i as f64) * (step as f64) / (ONE as f64);
        samples.push(((-x).exp() * (ONE as f64)).round() as i64);
    }
    DecayTable { step, samples }
}

fn rotation(degrees: f64) -> Rotation {
    let rad = degrees.to_radians();
    Rotation {
        cos: (rad.cos() * (ONE as f64)).round() as i64,
        sin: (rad.sin() * (ONE as f64)).round() as i64,
    }
}

fn params() -> Params {
    Params {
        t1: 200_000,
        t2: 100_000,
        t2dash: 50_000,
        d: 0,
        max_dist_count: 10,
        min_dist_mag: ONE / 1000,
        nyquist: Vec3 { x: 4, y: 4, z: 4 },
        grad_scale: Vec3 { x: ONE, y: ONE, z: ONE },
    }
}

fn repetition(angle: f64, phase: f64, events: &[(i64, (i64, i64, i64), bool)]) -> Repetition {
    Repetition {
        pulse_angle: rotation(angle),
        pulse_phase: rotation(phase),
        event_time: events.iter().map(|e| e.0).collect(),
        gradm_event: events.iter().map(|e| Vec3 { x: (e.1).0, y: (e.1).1, z: (e.1).2 }).collect(),
        adc_mask: events.iter().map(|e| e.2).collect(),
    }
}

fn build(seq: &Vec<Repetition>, p: &Params) -> Result<Graph, GraphError> {
    comp_graph(seq, p, &flat_table(), &decay_table())
}

#[test]
fn empty_sequence_gives_the_equilibrium_alone() {
    let g = build(&vec![], &params()).unwrap();
    assert_eq!(g.populations.len(), 1);
    assert_eq!(g.populations[0].len(), 1);
    let z = &g.populations[0][0];
    assert_eq!(z.dist_type, DistType::Z);
    assert_eq!(z.mag, Complex { re: ONE, im: 0 });
    assert_eq!(z.kt_vec.k, Vec3 { x: 0, y: 0, z: 0 });
    assert_eq!(z.kt_vec.diffusion, None);
    assert!(z.ancestors.is_empty());
}

#[test]
fn ideal_excitation_gives_one_transverse_node() {
    let seq = vec![repetition(90.0, 0.0, &[])];
    let g = build(&seq, &params()).unwrap();
    assert_eq!(g.populations.len(), 2);
    let pop = &g.populations[1];
    assert_eq!(pop.len(), 1);
    assert_eq!(pop[0].dist_type, DistType::P);
    assert_eq!(pop[0].mag, Complex { re: 0, im: -ONE });
    assert_eq!(pop[0].mag.magnitude(), ONE as u64);
    assert_eq!(pop[0].ancestors.len(), 1);
    let e = pop[0].ancestors[0];
    assert_eq!(e.relation, Relation::Excited);
    assert_eq!(e.rot_mat_factor, Complex { re: 0, im: -ONE });
    assert_eq!((e.repetition, e.index), (0, 0));
    assert!(pop.iter().all(|d| d.dist_type != DistType::Z));
}

#[test]
fn ideal_excitation_with_a_phase() {
    let seq = vec![repetition(90.0, 90.0, &[])];
    let g = build(&seq, &params()).unwrap();
    let pop = &g.populations[1];
    assert_eq!(pop.len(), 1);
    assert_eq!(pop[0].mag, Complex { re: ONE, im: 0 });
}

#[test]
fn transverse_amplitude_decays_with_t2() {
    let seq = vec![repetition(90.0, 0.0, &[(50_000, (0, 0, 0), false)])];
    let g = build(&seq, &params()).unwrap();
    let pop = &g.populations[1];
    let e2 = decay_table().samples[128];
    let p = pop.iter().find(|d| d.dist_type == DistType::P).unwrap();
    assert_eq!(p.mag, Complex { re: 0, im: -e2 });
    let expected = (-0.5f64).exp();
    assert!(((p.mag.magnitude() as f64) / (ONE as f64) - expected).abs() < 1e-6);
}

#[test]
fn longitudinal_amplitude_recovers_with_t1() {
    let seq = vec![repetition(90.0, 0.0, &[(50_000, (0, 0, 0), false)])];
    let g = build(&seq, &params()).unwrap();
    let pop = &g.populations[1];
    assert_eq!(pop.len(), 2);
    let e1 = decay_table().samples[64];
    let z = pop.iter().find(|d| d.dist_type == DistType::Z).unwrap();
    assert_eq!(z.mag, Complex { re: ONE - e1, im: 0 });
    assert!(z.ancestors.is_empty());
    let expected = 1.0 - (-0.25f64).exp();
    assert!(((z.mag.re as f64) / (ONE as f64) - expected).abs() < 1e-6);
    // the larger amplitude ranks first
    assert_eq!(pop[0].dist_type, DistType::P);
    assert_eq!(pop[1].dist_type, DistType::Z);
}

#[test]
fn pulse_free_sequence_stays_at_equilibrium() {
    let seq = vec![
        repetition(0.0, 0.0, &[(50_000, (1, 0, 0), false)]),
        repetition(0.0, 0.0, &[(80_000, (0, 2, 0), false)]),
    ];
    let g = build(&seq, &params()).unwrap();
    for r in 1..3 {
        assert_eq!(g.populations[r].len(), 1);
        let z = &g.populations[r][0];
        assert_eq!(z.dist_type, DistType::Z);
        assert_eq!(z.mag, Complex { re: ONE, im: 0 });
        assert_eq!(z.ancestors.len(), 1);
        assert_eq!(z.ancestors[0].relation, Relation::Carried);
        assert_eq!(z.ancestors[0].rot_mat_factor, Complex { re: ONE, im: 0 });
        assert_eq!(z.ancestors[0].repetition, r - 1);
    }
}

#[test]
fn pulse_free_recovery_approaches_equilibrium() {
    // Saturate with 90 degrees, then let the longitudinal part recover without pulses.
    let mut p = params();
    p.min_dist_mag = 0;
    let seq = vec![
        repetition(90.0, 0.0, &[(50_000, (9, 0, 0), false)]),
        repetition(0.0, 0.0, &[(50_000, (0, 0, 0), false)]),
    ];
    let g = build(&seq, &p).unwrap();
    let e1 = decay_table().samples[64];
    let z1 = g.populations[1].iter().find(|d| d.dist_type == DistType::Z).unwrap();
    assert_eq!(z1.mag.re, ONE - e1);
    let z2 = g.populations[2].iter().find(|d| d.dist_type == DistType::Z).unwrap();
    let decayed = ((ONE - e1) as i128 * e1 as i128 / ONE as i128) as i64;
    assert_eq!(z2.mag.re, decayed + ONE - e1);
    assert!(z2.mag.re > z1.mag.re);
    assert!(z2.mag.re < ONE);
    let expected = 1.0 - (-0.5f64).exp();
    assert!(((z2.mag.re as f64) / (ONE as f64) - expected).abs() < 1e-6);
}

#[test]
fn readout_within_the_cutoff_records_the_magnitude() {
    let seq = vec![repetition(90.0, 0.0, &[(0, (3, 0, 0), true), (0, (1, 0, 0), true)])];
    let g = build(&seq, &params()).unwrap();
    let p = &g.populations[1][0];
    assert_eq!(p.kt_vec.k, Vec3 { x: 4, y: 0, z: 0 });
    assert_eq!(p.recorded, 2 * ONE as u64);
}

#[test]
fn readout_beyond_the_cutoff_records_nothing() {
    let seq = vec![repetition(90.0, 0.0, &[(0, (5, 0, 0), true)])];
    let g = build(&seq, &params()).unwrap();
    let p = &g.populations[1][0];
    assert_eq!(p.dist_type, DistType::P);
    assert_eq!(p.kt_vec.k, Vec3 { x: 5, y: 0, z: 0 });
    assert_eq!(p.recorded, 0);
    // one step back inside the cutoff, the same node records again
    let seq = vec![repetition(90.0, 0.0, &[(0, (5, 0, 0), true), (0, (-1, 0, 0), true)])];
    let g = build(&seq, &params()).unwrap();
    assert_eq!(g.populations[1][0].recorded, ONE as u64);
}

#[test]
fn readout_without_adc_records_nothing() {
    let seq = vec![repetition(90.0, 0.0, &[(0, (1, 0, 0), false)])];
    let g = build(&seq, &params()).unwrap();
    assert_eq!(g.populations[1][0].recorded, 0);
}

#[test]
fn longitudinal_nodes_keep_their_offset_and_record_nothing() {
    let mut p = params();
    p.min_dist_mag = 0;
    let seq = vec![
        repetition(90.0, 0.0, &[(0, (2, 0, 0), false)]),
        repetition(90.0, 0.0, &[(0, (1, 0, 0), true)]),
    ];
    let g = build(&seq, &p).unwrap();
    let stored: Vec<_> = g.populations[2]
        .iter()
        .filter(|d| d.dist_type == DistType::Z && d.kt_vec.k.x == 2)
        .collect();
    assert_eq!(stored.len(), 1);
    assert_eq!(stored[0].recorded, 0);
    assert_eq!(stored[0].ancestors[0].relation, Relation::Stored);
}

#[test]
fn refocusing_brings_the_conjugate_back_to_the_origin() {
    let mut p = params();
    p.min_dist_mag = 1;
    let seq = vec![
        repetition(90.0, 0.0, &[(0, (3, 0, 0), false)]),
        repetition(180.0, 0.0, &[(0, (3, 0, 0), true)]),
    ];
    let g = build(&seq, &p).unwrap();
    let echo: Vec<_> = g.populations[2].iter().filter(|d| d.dist_type == DistType::M).collect();
    assert_eq!(echo.len(), 1);
    assert_eq!(echo[0].kt_vec.k, Vec3 { x: 0, y: 0, z: 0 });
    assert_eq!(echo[0].mag.magnitude(), ONE as u64);
    assert_eq!(echo[0].recorded, ONE as u64);
    assert_eq!(echo[0].ancestors[0].relation, Relation::Refocused);
    assert_eq!(echo[0].ancestors[0].index, 0);
    assert_eq!(echo[0].ancestors[0].repetition, 1);
}

#[test]
fn populations_stay_within_the_bounds() {
    let mut p = params();
    p.max_dist_count = 4;
    p.min_dist_mag = ONE / 50;
    let mut seq = Vec::new();
    for r in 0..8 {
        seq.push(repetition(45.0, 10.0 * r as f64, &[(10_000, (1, 0, 0), true), (5_000, (0, 1, 0), false)]));
    }
    let g = build(&seq, &p).unwrap();
    assert_eq!(g.populations.len(), 9);
    let floor = (p.min_dist_mag as u128) * (p.min_dist_mag as u128);
    let mut full = false;
    for pop in g.populations.iter() {
        assert!(pop.len() <= 4);
        full = full || pop.len() == 4;
        for d in pop.iter() {
            assert!(d.mag.squared_norm() >= floor);
            assert!(d.mag.magnitude() >= p.min_dist_mag as u64);
        }
        for w in pop.windows(2) {
            assert!(w[0].mag.squared_norm() >= w[1].mag.squared_norm());
        }
    }
    assert!(full);
}

#[test]
fn every_ancestor_is_in_the_population_before() {
    let mut p = params();
    p.max_dist_count = 6;
    let mut seq = Vec::new();
    for _ in 0..6 {
        seq.push(repetition(60.0, 30.0, &[(10_000, (1, 0, 0), true)]));
    }
    let g = build(&seq, &p).unwrap();
    assert_eq!(g.check_ancestry(), Ok(()));
    let mut fan_in = false;
    for (r, pop) in g.populations.iter().enumerate() {
        for d in pop.iter() {
            fan_in = fan_in || d.ancestors.len() > 1;
            for e in d.ancestors.iter() {
                assert!(e.repetition < r);
                assert_eq!(e.repetition + 1, r);
                assert!(e.index < g.populations[e.repetition].len());
            }
        }
    }
    assert!(fan_in);
}

#[test]
fn identical_input_gives_identical_graphs() {
    let mut p = params();
    p.max_dist_count = 3;
    p.min_dist_mag = 0;
    let mut seq = Vec::new();
    for _ in 0..5 {
        seq.push(repetition(90.0, 0.0, &[(0, (1, 0, 0), true)]));
    }
    let a = build(&seq, &p).unwrap();
    let b = build(&seq, &p).unwrap();
    assert_eq!(a, b);
}

#[test]
fn ties_go_to_the_candidate_created_first() {
    // After two 90 degree pulses without decay the kept and the refocused part of the
    // transverse node have the same magnitude; the stored part has the same magnitude too.
    let mut p = params();
    p.max_dist_count = 2;
    p.min_dist_mag = 1;
    let seq = vec![
        repetition(90.0, 0.0, &[(0, (1, 0, 0), false)]),
        repetition(90.0, 0.0, &[]),
    ];
    let g = build(&seq, &p).unwrap();
    let pop = &g.populations[2];
    assert_eq!(pop.len(), 2);
    // creation order for one parent: longitudinal, then P, then M
    assert_eq!(pop[0].dist_type, DistType::Z);
    assert_eq!(pop[1].dist_type, DistType::P);
    assert_eq!(pop[0].mag.squared_norm(), pop[1].mag.squared_norm());
    p.max_dist_count = 3;
    let g = build(&seq, &p).unwrap();
    let pop = &g.populations[2];
    assert_eq!(pop.len(), 3);
    assert_eq!(pop[2].dist_type, DistType::M);
    assert_eq!(pop[2].mag.squared_norm(), pop[1].mag.squared_norm());
}

#[test]
fn diffusion_attenuates_more_at_larger_offsets() {
    let mut p = params();
    p.d = ONE / 8;
    p.min_dist_mag = 0;
    p.t1 = TIME_LIMIT;
    p.t2 = TIME_LIMIT;
    let near = build(&vec![repetition(90.0, 0.0, &[(1, (32768, 0, 0), false)])], &p).unwrap();
    let far = build(&vec![repetition(90.0, 0.0, &[(1, (0, -3 * 32768, 0), false)])], &p).unwrap();
    let none = build(&vec![repetition(90.0, 0.0, &[(1, (0, 0, 0), false)])], &p).unwrap();
    let a = near.populations[1].iter().find(|d| d.dist_type == DistType::P).unwrap();
    let b = far.populations[1].iter().find(|d| d.dist_type == DistType::P).unwrap();
    let c = none.populations[1].iter().find(|d| d.dist_type == DistType::P).unwrap();
    // |k|^2 is ONE and 9 * ONE, so the exponents are 1/8 and 9/8 of ONE
    assert_eq!(a.mag, Complex { re: 0, im: -decay_table().samples[32] });
    assert_eq!(b.mag, Complex { re: 0, im: -decay_table().samples[288] });
    assert_eq!(c.mag, Complex { re: 0, im: -ONE });
    assert!(b.mag.magnitude() < a.mag.magnitude());
    assert_eq!(a.kt_vec.diffusion, Some((ONE / 8) as u128));
    assert_eq!(b.kt_vec.diffusion, Some((9 * ONE / 8) as u128));
    assert_eq!(c.kt_vec.diffusion, Some(0));
}

#[test]
fn offset_out_of_range_is_a_numeric_anomaly() {
    let seq = vec![
        repetition(0.0, 0.0, &[]),
        repetition(90.0, 0.0, &[(0, (K_LIMIT, 0, 0), false), (0, (0, 0, 0), false), (0, (1, 0, 0), false)]),
    ];
    assert_eq!(
        build(&seq, &params()),
        Err(GraphError::NumericAnomaly { repetition: 1, event: Some(2) })
    );
}

#[test]
fn validation_names_the_first_defect() {
    let seq = vec![repetition(90.0, 0.0, &[(1, (0, 0, 0), false)])];
    let check = |p: &Params, e: ValidationError| {
        assert_eq!(build(&seq, p), Err(GraphError::Validation(e)));
    };
    let mut p = params();
    p.max_dist_count = 0;
    p.min_dist_mag = -1;
    check(&p, ValidationError::MaxDistCount);
    p.max_dist_count = 1;
    check(&p, ValidationError::MinDistMag);
    let mut p = params();
    p.t1 = -1;
    check(&p, ValidationError::RelaxationTime);
    let mut p = params();
    p.t2 = -5;
    check(&p, ValidationError::RelaxationTime);
    let mut p = params();
    p.t2dash = TIME_LIMIT + 1;
    check(&p, ValidationError::RelaxationTime);
    let mut p = params();
    p.d = -1;
    check(&p, ValidationError::Diffusion);
    let mut p = params();
    p.nyquist.y = -1;
    check(&p, ValidationError::Cutoff);
    let mut p = params();
    p.grad_scale.z = -1;
    check(&p, ValidationError::FieldOfView);
}

#[test]
fn validation_refuses_bad_tables() {
    let seq = vec![repetition(90.0, 0.0, &[])];
    let mut short = flat_table();
    short.pop();
    assert_eq!(
        comp_graph(&seq, &params(), &short, &decay_table()),
        Err(GraphError::Validation(ValidationError::MixingTable))
    );
    let mut wide = flat_table();
    wide[7].sin = ONE + 1;
    assert_eq!(
        comp_graph(&seq, &params(), &wide, &decay_table()),
        Err(GraphError::Validation(ValidationError::MixingTable))
    );
    let mut rising = decay_table();
    rising.samples[10] = rising.samples[9] + 1;
    assert_eq!(
        comp_graph(&seq, &params(), &flat_table(), &rising),
        Err(GraphError::Validation(ValidationError::DecayTable))
    );
    let empty = DecayTable { step: 1, samples: vec![] };
    assert_eq!(
        comp_graph(&seq, &params(), &flat_table(), &empty),
        Err(GraphError::Validation(ValidationError::DecayTable))
    );
    let no_step = DecayTable { step: 0, samples: vec![ONE] };
    assert_eq!(
        comp_graph(&seq, &params(), &flat_table(), &no_step),
        Err(GraphError::Validation(ValidationError::DecayTable))
    );
}

#[test]
fn validation_refuses_bad_repetitions() {
    let good = repetition(90.0, 0.0, &[(1, (0, 0, 0), false)]);
    let mut lengths = repetition(90.0, 0.0, &[(1, (0, 0, 0), false)]);
    lengths.adc_mask.push(true);
    assert_eq!(
        build(&vec![good.clone(), lengths], &params()),
        Err(GraphError::Validation(ValidationError::EventLengths { repetition: 1 }))
    );
    let mut pulse = good.clone();
    pulse.pulse_phase.sin = -ONE - 1;
    assert_eq!(
        build(&vec![pulse], &params()),
        Err(GraphError::Validation(ValidationError::Pulse { repetition: 0 }))
    );
    let time = repetition(90.0, 0.0, &[(1, (0, 0, 0), false), (-1, (0, 0, 0), false)]);
    assert_eq!(
        build(&vec![good.clone(), good.clone(), time], &params()),
        Err(GraphError::Validation(ValidationError::Event { repetition: 2, event: 1 }))
    );
    let moment = repetition(90.0, 0.0, &[(1, (0, K_LIMIT + 1, 0), false)]);
    assert_eq!(
        build(&vec![moment], &params()),
        Err(GraphError::Validation(ValidationError::Event { repetition: 0, event: 0 }))
    );
}

#[test]
fn validation_comes_before_any_processing() {
    // The first repetition would run into a numeric anomaly, the second has a defect.
    let anomaly = repetition(90.0, 0.0, &[(0, (K_LIMIT, 0, 0), false), (0, (1, 0, 0), false)]);
    let mut lengths = repetition(90.0, 0.0, &[]);
    lengths.event_time.push(1);
    assert_eq!(
        build(&vec![anomaly, lengths], &params()),
        Err(GraphError::Validation(ValidationError::EventLengths { repetition: 1 }))
    );
}

#[test]
fn threshold_above_equilibrium_leaves_nothing() {
    let mut p = params();
    p.min_dist_mag = ONE + 1;
    let g = build(&vec![repetition(90.0, 0.0, &[])], &p).unwrap();
    assert_eq!(g.populations.len(), 2);
    assert!(g.populations[0].is_empty());
    assert!(g.populations[1].is_empty());
}

#[test]
fn amplitude_out_of_range_is_a_numeric_anomaly_of_the_pulse() {
    // A table that is no rotation: the longitudinal amplitude doubles with every pulse.
    let mut table = flat_table();
    for s in table.iter_mut() {
        *s = B1Sample { sin: 0, cos_sq_half: ONE, sin_sq_half: -ONE };
    }
    let mut p = params();
    p.max_dist_count = 1;
    let ten: Vec<Repetition> = (0..10).map(|_| repetition(0.0, 0.0, &[])).collect();
    let g = comp_graph(&ten, &p, &table, &decay_table()).unwrap();
    assert_eq!(g.populations[10][0].mag, Complex { re: 1024 * ONE, im: 0 });
    let eleven: Vec<Repetition> = (0..11).map(|_| repetition(0.0, 0.0, &[])).collect();
    assert_eq!(
        comp_graph(&eleven, &p, &table, &decay_table()),
        Err(GraphError::NumericAnomaly { repetition: 10, event: None })
    );
}

#[test]
fn the_additional_dephasing_does_not_enter_the_amplitude() {
    // t2 = 0.1 s, t2dash = 0.05 s, one event of 0.01 s, in microseconds
    let mut p = params();
    p.t2 = 100_000;
    p.t2dash = 50_000;
    p.min_dist_mag = 8 * ONE / 10;
    let seq = vec![repetition(90.0, 0.0, &[(10_000, (0, 0, 0), true)])];
    let g = build(&seq, &p).unwrap();
    let e2 = decay_table().samples[25];
    let weight = decay_table().samples[51];
    // between exp(-0.3) and exp(-0.1): the node survives
    assert_eq!(g.populations[1].len(), 1);
    let node = &g.populations[1][0];
    assert_eq!(node.dist_type, DistType::P);
    assert_eq!(node.mag, Complex { re: 0, im: -e2 });
    assert!(((node.mag.magnitude() as f64) / (ONE as f64) - (-0.1f64).exp()).abs() < 4e-3);
    // the dephasing weights what the readout records
    assert_eq!(node.kt_vec.dephasing, 10_000);
    assert_eq!(node.recorded, (e2 as u128 * weight as u128 / ONE as u128) as u64);
    // whatever the time of the additional dephasing, the amplitude is the same
    for t2dash in [0, 1, 7_000, 50_000, TIME_LIMIT] {
        p.t2dash = t2dash;
        let g = build(&seq, &p).unwrap();
        assert_eq!(g.populations[1][0].mag, Complex { re: 0, im: -e2 });
    }
}

#[test]
fn transverse_decay_over_several_events() {
    let mut p = params();
    p.min_dist_mag = 1;
    let seq = vec![repetition(90.0, 0.0, &[(50_000, (0, 0, 0), false), (25_000, (0, 0, 0), false)])];
    let g = build(&seq, &p).unwrap();
    let t = decay_table();
    let after = (t.samples[128] as i128 * t.samples[64] as i128 / ONE as i128) as i64;
    let node = g.populations[1].iter().find(|d| d.dist_type == DistType::P).unwrap();
    assert_eq!(node.mag, Complex { re: 0, im: -after });
    assert!(((after as f64) / (ONE as f64) - (-0.75f64).exp()).abs() < 1e-6);
}

#[test]
fn refocusing_undoes_the_additional_dephasing() {
    let mut p = params();
    p.min_dist_mag = 1;
    p.nyquist = Vec3 { x: 10, y: 10, z: 10 };
    let t = decay_table();
    // gradient echo: read out after 10 ms of dephasing
    let seq = vec![repetition(90.0, 0.0, &[(10_000, (3, 0, 0), true)])];
    let g = build(&seq, &p).unwrap();
    let node = &g.populations[1][0];
    assert_eq!(node.kt_vec.dephasing, 10_000);
    assert_eq!(node.recorded, (node.mag.magnitude() as u128 * t.samples[51] as u128 / ONE as u128) as u64);
    // spin echo: the conjugate partner runs the dephasing time back to zero
    let seq = vec![
        repetition(90.0, 0.0, &[(10_000, (3, 0, 0), false)]),
        repetition(180.0, 0.0, &[(10_000, (3, 0, 0), true)]),
    ];
    let g = build(&seq, &p).unwrap();
    let echo = g.populations[2].iter().find(|d| d.dist_type == DistType::M).unwrap();
    assert_eq!(echo.kt_vec.dephasing, 0);
    assert_eq!(echo.kt_vec.k, Vec3 { x: 0, y: 0, z: 0 });
    assert_eq!(echo.recorded, echo.mag.magnitude());
    assert!(echo.recorded > 0);
}

#[test]
fn pulse_pairs_that_are_no_rotation_are_refused() {
    let mut nothing = repetition(90.0, 0.0, &[]);
    nothing.pulse_phase = Rotation { cos: 0, sin: 0 };
    assert_eq!(
        build(&vec![nothing], &params()),
        Err(GraphError::Validation(ValidationError::Pulse { repetition: 0 }))
    );
    let mut large = repetition(90.0, 0.0, &[]);
    large.pulse_angle = Rotation { cos: ONE, sin: ONE };
    assert_eq!(
        build(&vec![repetition(90.0, 0.0, &[]), large], &params()),
        Err(GraphError::Validation(ValidationError::Pulse { repetition: 1 }))
    );
    // the sum of the squares may differ from ONE * ONE by twice ONE, and by no more
    let mut edge = repetition(90.0, 0.0, &[]);
    edge.pulse_phase = Rotation { cos: ONE, sin: 46_340 };
    assert!(build(&vec![edge.clone()], &params()).is_ok());
    edge.pulse_phase = Rotation { cos: ONE, sin: 46_341 };
    assert_eq!(
        build(&vec![edge], &params()),
        Err(GraphError::Validation(ValidationError::Pulse { repetition: 0 }))
    );
    // every angle rounded to the nearest fixed-point number is accepted
    for tenth in 0..3600 {
        let rep = repetition(tenth as f64 / 10.0, 360.0 - tenth as f64 / 10.0, &[]);
        assert_eq!(rep.validate(0), None);
    }
}

#[test]
fn ideal_excitation_for_every_phase_and_threshold() {
    let mut p = params();
    p.max_dist_count = 1;
    p.min_dist_mag = ONE - 2;
    for degrees in [0.0, 17.0, 45.0, 133.0, 270.0] {
        let seq = vec![repetition(90.0, degrees, &[(0, (0, 0, 0), true), (0, (0, 0, 0), false)])];
        let g = build(&seq, &p).unwrap();
        assert_eq!(g.populations[1].len(), 1);
        let node = &g.populations[1][0];
        assert_eq!(node.dist_type, DistType::P);
        assert_eq!(node.mag, Complex { re: seq[0].pulse_phase.sin, im: -seq[0].pulse_phase.cos });
        assert!(node.mag.magnitude() >= ONE as u64 - 2 && node.mag.magnitude() <= ONE as u64);
    }
    p.min_dist_mag = 0;
    p.max_dist_count = 5;
    let g = build(&vec![repetition(90.0, 0.0, &[])], &p).unwrap();
    assert_eq!(g.populations[1].len(), 2);
    assert_eq!(g.populations[1][1].dist_type, DistType::Z);
    assert_eq!(g.populations[1][1].mag, Complex { re: 0, im: 0 });
}
