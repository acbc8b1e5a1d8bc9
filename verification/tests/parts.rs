use prepass::events::{
    apply_event, dephase, diffusion_exponent_of, event_step, evolve_node, is_within_cutoff, ratio,
    relaxation_factor, DEPHASING_LIMIT,
};
use prepass::fixed::{abs_i64, isqrt, quotient, Complex, AMP_LIMIT, ONE};
use prepass::graph::{DistType, Distribution, Edge, Offset, Relation, Vec3};
use prepass::prune::{copy_distribution, copy_edges, prune};
use prepass::pulse::{
    absorb_into, compute_transitions, contribute_child, find_transition, has_state, pulse_step,
    Transitions,
};
use prepass::tables::{
    average_mixing, mixing_table_ok, B1Sample, DecayTable, Mixing, Pulse, Rotation, B1_SAMPLES,
};
use prepass::timeline::{adc_mask_of, validate_input, Params, Repetition, K_LIMIT, TIME_LIMIT};

fn decay_table() -> DecayTable {
    let step: u64 = (ONE as u64) / 256;
    let samples: Vec<i64> = (0..4097)
        .map(|i| ((-(i as f64) * (step as f64) / (ONE as f64)).exp() * (ONE as f64)).round() as i64)
        .collect();
    DecayTable { step, samples }
}

fn params() -> Params {
    Params {
        t1: 200_000,
        t2: 100_000,
        t2dash: 400_000,
        d: 0,
        max_dist_count: 10,
        min_dist_mag: 0,
        nyquist: Vec3 { x: 4, y: 4, z: 4 },
        grad_scale: Vec3 { x: ONE, y: ONE, z: ONE },
    }
}

fn dist(dist_type: DistType, re: i64, im: i64, k: (i64, i64, i64)) -> Distribution {
    Distribution {
        dist_type,
        mag: Complex { re, im },
        kt_vec: Offset { k: Vec3 { x: k.0, y: k.1, z: k.2 }, dephasing: 0, diffusion: None },
        recorded: 0,
        latent_signal: 0,
        signal: 0,
        rel_signal: 0,
        ancestors: vec![],
    }
}

fn zero() -> Complex {
    Complex { re: 0, im: 0 }
}

#[test]
fn quotient_rounds_toward_zero() {
    assert_eq!(quotient(7, 2), 3);
    assert_eq!(quotient(-7, 2), -3);
    assert_eq!(quotient(-1, 2), 0);
    assert_eq!(quotient(0, 5), 0);
    assert_eq!(quotient(-8, 4), -2);
}

#[test]
fn integer_square_roots() {
    assert_eq!(isqrt(0), 0);
    assert_eq!(isqrt(1), 1);
    assert_eq!(isqrt(3), 1);
    assert_eq!(isqrt(4), 2);
    assert_eq!(isqrt(15), 3);
    assert_eq!(isqrt(16), 4);
    assert_eq!(isqrt((1u128 << 60) - 1), (1 << 30) - 1);
    assert_eq!(isqrt(1u128 << 60), 1 << 30);
    assert_eq!(isqrt(u128::MAX), u64::MAX);
}

#[test]
fn absolute_values() {
    assert_eq!(abs_i64(0), 0);
    assert_eq!(abs_i64(-5), 5);
    assert_eq!(abs_i64(i64::MAX), i64::MAX as u64);
    assert_eq!(abs_i64(i64::MIN), 1u64 << 63);
}

#[test]
fn complex_arithmetic() {
    let a = Complex { re: ONE, im: ONE };
    let b = Complex { re: ONE, im: -ONE };
    assert_eq!(a.times(&b), (2 * ONE as i128, 0));
    let i = Complex { re: 0, im: ONE };
    assert_eq!(i.times(&i), (-(ONE as i128), 0));
    let h = Complex { re: ONE / 2, im: -3 };
    assert_eq!(h.times(&h), ((ONE / 4 - 1) as i128, -3));
    assert_eq!(Complex { re: 3, im: -4 }.squared_norm(), 25);
    assert_eq!(Complex { re: 3, im: -4 }.magnitude(), 5);
    assert_eq!(Complex { re: i64::MIN, im: i64::MIN }.squared_norm(), 1u128 << 127);
    assert_eq!(Complex { re: -5, im: 7 }.scale(ONE), Complex { re: -5, im: 7 });
    assert_eq!(Complex { re: -5, im: 7 }.scale(ONE / 2), Complex { re: -2, im: 3 });
    assert_eq!(Complex { re: -5, im: 7 }.scale(0), zero());
    assert_eq!(Complex::zero(), zero());
    assert_eq!(Complex::narrowed(AMP_LIMIT as i128, -(AMP_LIMIT as i128)), Some(Complex { re: AMP_LIMIT, im: -AMP_LIMIT }));
    assert_eq!(Complex::narrowed(AMP_LIMIT as i128 + 1, 0), None);
    assert_eq!(Complex::narrowed(0, -(AMP_LIMIT as i128) - 1), None);
}

#[test]
fn mixing_over_a_flat_table_is_the_nominal_one() {
    let table = vec![B1Sample::flat(); B1_SAMPLES];
    assert!(mixing_table_ok(&table));
    let pulse = Pulse {
        angle: Rotation { cos: 123_456, sin: -ONE + 77 },
        phase: Rotation { cos: 0, sin: ONE },
    };
    let m = average_mixing(&table, &pulse);
    assert_eq!(m, Mixing { sin: -ONE + 77, cos: 123_456, phase: pulse.phase });
}

#[test]
fn mixing_adds_the_extra_rotation_of_each_sample() {
    // every sample turns by a further right angle: a nominal angle of zero becomes a right angle
    let quarter = B1Sample { sin: ONE, cos_sq_half: ONE / 2, sin_sq_half: ONE / 2 };
    let table = vec![quarter; B1_SAMPLES];
    let pulse = Pulse { angle: Rotation { cos: ONE, sin: 0 }, phase: Rotation { cos: ONE, sin: 0 } };
    let m = average_mixing(&table, &pulse);
    assert_eq!((m.sin, m.cos), (ONE, 0));
}

#[test]
fn mixing_averages_over_the_samples() {
    // one sample turns by a further half turn, the others not at all
    let mut table = vec![B1Sample::flat(); B1_SAMPLES];
    table[100] = B1Sample { sin: 0, cos_sq_half: 0, sin_sq_half: ONE };
    let pulse = Pulse { angle: Rotation { cos: ONE, sin: 0 }, phase: Rotation { cos: ONE, sin: 0 } };
    let m = average_mixing(&table, &pulse);
    assert_eq!(m.sin, 0);
    assert_eq!(m.cos, (ONE as i128 * 359 / 361) as i64);
}

#[test]
fn mixing_table_must_have_its_length_and_range() {
    assert!(!mixing_table_ok(&vec![]));
    assert!(!mixing_table_ok(&vec![B1Sample::flat(); B1_SAMPLES + 1]));
    let mut table = vec![B1Sample::flat(); B1_SAMPLES];
    table[360].sin_sq_half = -ONE - 1;
    assert!(!mixing_table_ok(&table));
    table[360].sin_sq_half = -ONE;
    assert!(mixing_table_ok(&table));
}

#[test]
fn decay_table_lookup() {
    let t = decay_table();
    assert!(t.is_valid());
    assert_eq!(t.decay(0), ONE);
    assert_eq!(t.decay(t.step as u128 - 1), ONE);
    assert_eq!(t.decay(t.step as u128), t.samples[1]);
    assert_eq!(t.decay(ONE as u128), t.samples[256]);
    assert_eq!(t.decay(16 * ONE as u128), t.samples[4096]);
    assert_eq!(t.decay(u128::MAX), t.samples[4096]);
    assert!(((t.decay(ONE as u128) as f64) / (ONE as f64) - (-1.0f64).exp()).abs() < 1e-8);
    let mut bad = decay_table();
    bad.samples[0] = ONE - 1;
    assert!(!bad.is_valid());
    let mut bad = decay_table();
    bad.samples[4096] = -1;
    assert!(!bad.is_valid());
    let mut bad = decay_table();
    bad.step = ONE as u64 + 1;
    assert!(!bad.is_valid());
}

#[test]
fn transitions_of_a_right_angle() {
    let m = Mixing { sin: ONE, cos: 0, phase: Rotation { cos: ONE, sin: 0 } };
    let t = compute_transitions(&m);
    assert_eq!(t.carried_z, zero());
    assert_eq!(t.carried_t, Complex { re: ONE / 2, im: 0 });
    assert_eq!(t.excited, Complex { re: 0, im: -ONE });
    assert_eq!(t.stored_p, Complex { re: 0, im: -ONE / 2 });
    assert_eq!(t.stored_m, Complex { re: 0, im: ONE / 2 });
    assert_eq!(t.refocused_p, Complex { re: ONE / 2, im: 0 });
    assert_eq!(t.refocused_m, Complex { re: ONE / 2, im: 0 });
    assert_eq!(find_transition(DistType::Z, DistType::Z, &t), None);
    assert_eq!(find_transition(DistType::Z, DistType::M, &t), None);
    assert_eq!(find_transition(DistType::Z, DistType::P, &t), Some((Relation::Excited, t.excited)));
    assert_eq!(find_transition(DistType::P, DistType::Z, &t), Some((Relation::Stored, t.stored_p)));
    assert_eq!(find_transition(DistType::M, DistType::Z, &t), Some((Relation::Stored, t.stored_m)));
    assert_eq!(find_transition(DistType::P, DistType::P, &t), Some((Relation::Carried, t.carried_t)));
    assert_eq!(find_transition(DistType::M, DistType::M, &t), Some((Relation::Carried, t.carried_t)));
    assert_eq!(find_transition(DistType::P, DistType::M, &t), Some((Relation::Refocused, t.refocused_p)));
    assert_eq!(find_transition(DistType::M, DistType::P, &t), Some((Relation::Refocused, t.refocused_m)));
}

#[test]
fn transitions_of_a_half_turn_with_a_phase() {
    // phase of a right angle: the square of the phase factor is -1
    let m = Mixing { sin: 0, cos: -ONE, phase: Rotation { cos: 0, sin: ONE } };
    let t = compute_transitions(&m);
    assert_eq!(t.carried_z, Complex { re: -ONE, im: 0 });
    assert_eq!(t.carried_t, zero());
    assert_eq!(t.excited, zero());
    assert_eq!(t.stored_p, zero());
    assert_eq!(t.refocused_p, Complex { re: -ONE, im: 0 });
    assert_eq!(t.refocused_m, Complex { re: -ONE, im: 0 });
    assert_eq!(find_transition(DistType::P, DistType::P, &t), None);
    assert_eq!(find_transition(DistType::Z, DistType::P, &t), None);
    let eighth = (0.5f64.sqrt() * ONE as f64).round() as i64;
    let m = Mixing { sin: 0, cos: -ONE, phase: Rotation { cos: eighth, sin: eighth } };
    let t = compute_transitions(&m);
    // the square of the phase factor is i, up to rounding
    assert_eq!(t.refocused_m.re, 0);
    assert!((t.refocused_m.im - ONE).abs() <= 2);
    assert_eq!(t.refocused_p.im, -t.refocused_m.im);
}

#[test]
fn contributions_merge_by_type_and_offset() {
    let mut c = vec![dist(DistType::Z, 0, 0, (0, 0, 0))];
    let kt = Offset { k: Vec3 { x: 1, y: 2, z: 3 }, dephasing: 0, diffusion: Some(9) };
    let e0 = Edge { relation: Relation::Carried, rot_mat_factor: Complex { re: 1, im: 0 }, repetition: 4, index: 0 };
    let e1 = Edge { relation: Relation::Refocused, rot_mat_factor: Complex { re: 2, im: 0 }, repetition: 4, index: 1 };
    assert!(absorb_into(&mut c, DistType::P, kt, Complex { re: 10, im: -1 }, e0));
    assert!(absorb_into(&mut c, DistType::M, kt, Complex { re: 5, im: 5 }, e1));
    let other = Offset { k: Vec3 { x: 1, y: 2, z: 3 }, dephasing: 0, diffusion: None };
    assert!(absorb_into(&mut c, DistType::P, other, Complex { re: 7, im: 7 }, e1));
    assert_eq!(c.len(), 3);
    assert_eq!(c[1].dist_type, DistType::P);
    assert_eq!(c[1].mag, Complex { re: 17, im: 6 });
    assert_eq!(c[1].kt_vec, kt);
    assert_eq!(c[1].ancestors, vec![e0, e1]);
    assert_eq!(c[2].dist_type, DistType::M);
    assert_eq!(c[2].ancestors, vec![e1]);
    assert!(has_state(&c[2], DistType::M, &kt.k));
    assert!(!has_state(&c[2], DistType::P, &kt.k));
    // a sum out of range is refused and changes nothing
    let before = c.clone();
    assert!(!absorb_into(&mut c, DistType::P, kt, Complex { re: AMP_LIMIT, im: 0 }, e0));
    assert_eq!(c, before);
}

#[test]
fn a_child_inherits_the_offset_of_its_parent() {
    let m = Mixing { sin: ONE, cos: 0, phase: Rotation { cos: ONE, sin: 0 } };
    let t = compute_transitions(&m);
    let mut parent = dist(DistType::P, ONE, 0, (3, -1, 0));
    parent.kt_vec.diffusion = Some(11);
    let mut c = vec![dist(DistType::Z, 0, 0, (0, 0, 0))];
    assert!(contribute_child(&mut c, &parent, 2, 5, DistType::M, &t));
    assert_eq!(c.len(), 2);
    assert_eq!(c[1].dist_type, DistType::M);
    assert_eq!(c[1].mag, Complex { re: ONE / 2, im: 0 });
    assert_eq!(c[1].kt_vec, parent.kt_vec);
    assert_eq!(
        c[1].ancestors,
        vec![Edge { relation: Relation::Refocused, rot_mat_factor: t.refocused_p, repetition: 2, index: 5 }]
    );
}

#[test]
fn pulse_step_starts_with_the_baseline() {
    let m = Mixing { sin: ONE, cos: 0, phase: Rotation { cos: ONE, sin: 0 } };
    let t = compute_transitions(&m);
    let c = pulse_step(&vec![], 0, &t, true).unwrap();
    assert_eq!(c.len(), 1);
    assert_eq!(c[0].dist_type, DistType::Z);
    assert_eq!(c[0].mag, zero());
    assert_eq!(c[0].kt_vec, Offset { k: Vec3 { x: 0, y: 0, z: 0 }, dephasing: 0, diffusion: Some(0) });
    let prev = vec![dist(DistType::P, ONE, 0, (0, 0, 0)), dist(DistType::M, 0, ONE, (0, 0, 0))];
    let c = pulse_step(&prev, 3, &t, false).unwrap();
    // both parents store into the baseline, keep their type in part, and refocus into each other
    assert_eq!(c.len(), 3);
    assert_eq!(c[0].ancestors.len(), 2);
    assert_eq!(c[0].mag, Complex { re: -ONE / 2, im: -ONE / 2 });
    assert_eq!(c[1].dist_type, DistType::P);
    assert_eq!(c[1].mag, Complex { re: ONE / 2, im: ONE / 2 });
    assert_eq!(c[1].ancestors.len(), 2);
    assert_eq!(c[1].ancestors[0].relation, Relation::Carried);
    assert_eq!(c[1].ancestors[1].relation, Relation::Refocused);
    assert_eq!(c[1].ancestors[1].index, 1);
    assert_eq!(c[2].dist_type, DistType::M);
    assert!(c.iter().all(|d| d.ancestors.iter().all(|e| e.repetition == 3)));
}

#[test]
fn pulse_step_reports_an_amplitude_out_of_range() {
    let double = Complex { re: 2 * ONE, im: 0 };
    let t = Transitions {
        carried_z: double,
        carried_t: zero(),
        excited: zero(),
        stored_p: zero(),
        stored_m: zero(),
        refocused_p: zero(),
        refocused_m: zero(),
    };
    let fine = vec![dist(DistType::Z, AMP_LIMIT / 2, 0, (0, 0, 0))];
    let c = pulse_step(&fine, 0, &t, false).unwrap();
    assert_eq!(c[0].mag, Complex { re: AMP_LIMIT, im: 0 });
    let prev = vec![dist(DistType::Z, AMP_LIMIT / 2 + 1, 0, (0, 0, 0))];
    assert!(pulse_step(&prev, 0, &t, false).is_none());
    // two parents whose sum leaves the range
    let two = vec![dist(DistType::Z, AMP_LIMIT / 2, 0, (0, 0, 0)), dist(DistType::Z, 1, 0, (0, 0, 0))];
    assert!(pulse_step(&two, 0, &t, false).is_none());
}

#[test]
fn relaxation_factors() {
    let p = params();
    let t = decay_table();
    assert_eq!(ratio(0, 0), 0);
    assert_eq!(ratio(5, 0), u128::MAX);
    assert_eq!(ratio(50_000, 100_000), (ONE / 2) as u128);
    assert_eq!(relaxation_factor(DistType::Z, 50_000, &p, &t), t.samples[64]);
    // transverse magnetization decays with t2 alone
    assert_eq!(relaxation_factor(DistType::P, 50_000, &p, &t), t.samples[128]);
    assert_eq!(relaxation_factor(DistType::M, 50_000, &p, &t), t.samples[128]);
    assert_eq!(relaxation_factor(DistType::P, 0, &p, &t), ONE);
    let mut instant = params();
    instant.t2 = 0;
    assert_eq!(relaxation_factor(DistType::P, 0, &instant, &t), ONE);
    // a time constant of zero gives the last sample of the table, which need not be zero
    assert_eq!(relaxation_factor(DistType::P, 1, &instant, &t), t.samples[4096]);
    assert!(t.samples[4096] > 0);
    assert_eq!(ratio(u64::MAX, 1), u64::MAX as u128 * ONE as u128);
}

#[test]
fn dephasing_times() {
    assert_eq!(dephase(DistType::P, 5, 7), 12);
    assert_eq!(dephase(DistType::M, 5, 7), -2);
    assert_eq!(dephase(DistType::Z, 5, 7), 5);
    assert_eq!(dephase(DistType::P, DEPHASING_LIMIT, 1), DEPHASING_LIMIT);
    assert_eq!(dephase(DistType::M, -DEPHASING_LIMIT, 1), -DEPHASING_LIMIT);
    assert_eq!(dephase(DistType::Z, i64::MAX, 0), DEPHASING_LIMIT);
    let p = params();
    let t = decay_table();
    let g = Vec3 { x: 0, y: 0, z: 0 };
    // t2dash is 400000: after 100000 ticks the weight is the sample at the exponent 1/4
    let mut plus = dist(DistType::P, ONE, 0, (0, 0, 0));
    assert!(evolve_node(&mut plus, false, 100_000, &g, true, &p, &t));
    assert_eq!(plus.kt_vec.dephasing, 100_000);
    assert_eq!(plus.mag.re, t.samples[256]);
    assert_eq!(plus.recorded, (t.samples[256] as u128 * t.samples[64] as u128 / ONE as u128) as u64);
    let mut minus = dist(DistType::M, ONE, 0, (0, 0, 0));
    minus.kt_vec.dephasing = 100_000;
    assert!(evolve_node(&mut minus, false, 100_000, &g, true, &p, &t));
    assert_eq!(minus.kt_vec.dephasing, 0);
    assert_eq!(minus.recorded, t.samples[256] as u64);
}

#[test]
fn diffusion_exponents() {
    let mut p = params();
    p.d = ONE;
    p.grad_scale = Vec3 { x: ONE, y: ONE / 2, z: 0 };
    assert_eq!(diffusion_exponent_of(&p, &Vec3 { x: 0, y: 0, z: 0 }, 7), 0);
    assert_eq!(diffusion_exponent_of(&p, &Vec3 { x: 3, y: 0, z: 0 }, 7), 63);
    assert_eq!(diffusion_exponent_of(&p, &Vec3 { x: -3, y: 4, z: 100 }, 7), 7 * (9 + 4));
    assert_eq!(diffusion_exponent_of(&p, &Vec3 { x: 3, y: 4, z: 0 }, 0), 0);
    p.d = ONE / 4;
    assert_eq!(diffusion_exponent_of(&p, &Vec3 { x: 3, y: 0, z: 0 }, 7), 15);
    p.d = 0;
    assert_eq!(diffusion_exponent_of(&p, &Vec3 { x: K_LIMIT, y: K_LIMIT, z: K_LIMIT }, TIME_LIMIT), 0);
}

#[test]
fn the_conjugate_partner_moves_against_the_gradient() {
    let p = params();
    let t = decay_table();
    let g = Vec3 { x: 2, y: -1, z: 0 };
    let mut plus = dist(DistType::P, ONE, 0, (1, 1, 1));
    let mut minus = dist(DistType::M, ONE, 0, (1, 1, 1));
    let mut long = dist(DistType::Z, ONE, 0, (1, 1, 1));
    assert!(evolve_node(&mut plus, false, 0, &g, true, &p, &t));
    assert!(evolve_node(&mut minus, false, 0, &g, true, &p, &t));
    assert!(evolve_node(&mut long, false, 0, &g, true, &p, &t));
    assert_eq!(plus.kt_vec.k, Vec3 { x: 3, y: 0, z: 1 });
    assert_eq!(minus.kt_vec.k, Vec3 { x: -1, y: 2, z: 1 });
    assert_eq!(long.kt_vec.k, Vec3 { x: 1, y: 1, z: 1 });
    assert_eq!(plus.recorded, ONE as u64);
    assert_eq!(minus.recorded, ONE as u64);
    assert_eq!(long.recorded, 0);
}

#[test]
fn the_cutoff_holds_for_each_axis() {
    let n = Vec3 { x: 4, y: 0, z: 2 };
    assert!(is_within_cutoff(&Vec3 { x: 4, y: 0, z: -2 }, &n));
    assert!(is_within_cutoff(&Vec3 { x: -4, y: 0, z: 0 }, &n));
    assert!(!is_within_cutoff(&Vec3 { x: 5, y: 0, z: 0 }, &n));
    assert!(!is_within_cutoff(&Vec3 { x: 0, y: 1, z: 0 }, &n));
    assert!(!is_within_cutoff(&Vec3 { x: 0, y: 0, z: -3 }, &n));
}

#[test]
fn only_the_baseline_recovers() {
    let p = params();
    let t = decay_table();
    let g = Vec3 { x: 0, y: 0, z: 0 };
    let e1 = t.samples[64];
    let mut base = dist(DistType::Z, ONE / 2, 0, (0, 0, 0));
    let mut other = dist(DistType::Z, ONE / 2, 0, (0, 0, 0));
    assert!(evolve_node(&mut base, true, 50_000, &g, false, &p, &t));
    assert!(evolve_node(&mut other, false, 50_000, &g, false, &p, &t));
    let decayed = ((ONE / 2) as i128 * e1 as i128 / ONE as i128) as i64;
    assert_eq!(other.mag, Complex { re: decayed, im: 0 });
    assert_eq!(base.mag, Complex { re: decayed + ONE - e1, im: 0 });
    // the largest amplitude stays in range: what decays makes room for what recovers
    let mut full = dist(DistType::Z, AMP_LIMIT, 0, (0, 0, 0));
    assert!(evolve_node(&mut full, true, 50_000, &g, false, &p, &t));
    assert_eq!(full.mag.re, 1024 * e1 + ONE - e1);
    let mut fast = params();
    fast.t1 = 0;
    let mut gone = dist(DistType::Z, -AMP_LIMIT, 0, (0, 0, 0));
    assert!(evolve_node(&mut gone, true, 1, &g, false, &fast, &t));
    assert_eq!(gone.mag.re, -1024 * t.samples[4096] + ONE - t.samples[4096]);
    // a transverse node never recovers, wherever it stands
    let mut first = dist(DistType::P, ONE / 2, 0, (0, 0, 0));
    assert!(evolve_node(&mut first, true, 0, &g, false, &fast, &t));
    assert_eq!(first.mag.re, ONE / 2);
    let mut c = vec![dist(DistType::Z, 0, 0, (0, 0, 0)), dist(DistType::Z, 0, 0, (1, 0, 0))];
    assert!(apply_event(&mut c, 50_000, &g, false, &p, &t));
    assert_eq!(c[0].mag.re, ONE - e1);
    assert_eq!(c[1].mag.re, 0);
}

#[test]
fn the_event_step_names_the_failing_event() {
    let p = params();
    let t = decay_table();
    let rep = Repetition {
        pulse_angle: Rotation { cos: 0, sin: ONE },
        pulse_phase: Rotation { cos: ONE, sin: 0 },
        event_time: vec![1, 1, 1],
        gradm_event: vec![Vec3 { x: K_LIMIT, y: 0, z: 0 }, Vec3 { x: -1, y: 0, z: 0 }, Vec3 { x: 2, y: 0, z: 0 }],
        adc_mask: vec![false, false, false],
    };
    let mut c = vec![dist(DistType::Z, 0, 0, (0, 0, 0)), dist(DistType::P, ONE, 0, (0, 0, 0))];
    assert_eq!(event_step(&mut c, &rep, &p, &t), Err(2));
    let mut c = vec![dist(DistType::Z, 0, 0, (0, 0, 0)), dist(DistType::M, ONE, 0, (0, 0, 0))];
    assert_eq!(event_step(&mut c, &rep, &p, &t), Err(2));
    let mut c = vec![dist(DistType::Z, 0, 0, (0, 0, 0)), dist(DistType::Z, ONE, 0, (K_LIMIT, 0, 0))];
    assert_eq!(event_step(&mut c, &rep, &p, &t), Ok(()));
    assert_eq!(c[1].kt_vec.k.x, K_LIMIT);
    let mut back = rep.clone();
    back.gradm_event[2].x = -2;
    let mut c = vec![dist(DistType::Z, 0, 0, (0, 0, 0)), dist(DistType::M, ONE, 0, (-3, 0, 0))];
    assert_eq!(event_step(&mut c, &back, &p, &t), Err(0));
    let mut c = vec![dist(DistType::Z, 0, 0, (0, 0, 0)), dist(DistType::P, ONE, 0, (-3, 0, 0))];
    assert_eq!(event_step(&mut c, &back, &p, &t), Ok(()));
    assert_eq!(c[1].kt_vec.k.x, K_LIMIT - 6);
}

#[test]
fn pruning_ranks_by_magnitude_then_by_creation() {
    let c = vec![
        dist(DistType::Z, 3, 0, (0, 0, 0)),
        dist(DistType::P, 0, 5, (1, 0, 0)),
        dist(DistType::M, -5, 0, (2, 0, 0)),
        dist(DistType::P, 1, 0, (3, 0, 0)),
        dist(DistType::P, 4, 3, (4, 0, 0)),
    ];
    let kept = prune(&c, 2, 2);
    assert_eq!(kept.len(), 2);
    assert_eq!(kept[0], c[1]);
    assert_eq!(kept[1], c[2]);
    let kept = prune(&c, 2, 10);
    assert_eq!(kept, vec![c[1].clone(), c[2].clone(), c[4].clone(), c[0].clone()]);
    let kept = prune(&c, 0, usize::MAX);
    assert_eq!(kept.len(), 5);
    assert_eq!(kept[4], c[3]);
    assert!(prune(&c, 6, 3).is_empty());
    assert!(prune(&c, 0, 0).is_empty());
    assert_eq!(prune(&c, 5, 3).len(), 3);
}

#[test]
fn copies_are_equal() {
    let e = Edge { relation: Relation::Stored, rot_mat_factor: Complex { re: 1, im: 2 }, repetition: 3, index: 4 };
    assert_eq!(copy_edges(&vec![e, e]), vec![e, e]);
    let mut d = dist(DistType::M, 1, 2, (3, 4, 5));
    d.ancestors.push(e);
    d.recorded = 6;
    d.signal = 7;
    assert_eq!(copy_distribution(&d), d);
}

#[test]
fn vectors_within_limits() {
    let v = Vec3 { x: -3, y: 0, z: 3 };
    assert!(v.is_within(3));
    assert!(!v.is_within(2));
    assert!(!v.is_positive_within(3));
    assert!(Vec3 { x: 0, y: 1, z: 3 }.is_positive_within(3));
    assert!(Rotation { cos: ONE, sin: -ONE }.is_unit());
    assert!(!Rotation { cos: ONE + 1, sin: 0 }.is_unit());
    assert!(Rotation { cos: 0, sin: -ONE }.is_normalized());
    assert!(Rotation { cos: 759_250_125, sin: 759_250_125 }.is_normalized());
    assert!(!Rotation { cos: ONE, sin: -ONE }.is_normalized());
    assert!(!Rotation { cos: 0, sin: 0 }.is_normalized());
    assert!(!Rotation { cos: ONE + 1, sin: 0 }.is_normalized());
    assert!(!Rotation { cos: ONE - 2, sin: 0 }.is_normalized());
    assert!(Rotation { cos: ONE - 1, sin: 0 }.is_normalized());
}

#[test]
fn input_validation_accepts_good_input() {
    let rep = Repetition {
        pulse_angle: Rotation { cos: 0, sin: ONE },
        pulse_phase: Rotation { cos: ONE, sin: 0 },
        event_time: vec![0, TIME_LIMIT],
        gradm_event: vec![Vec3 { x: K_LIMIT, y: -K_LIMIT, z: 0 }, Vec3 { x: 0, y: 0, z: 0 }],
        adc_mask: vec![true, false],
    };
    assert_eq!(rep.validate(0), None);
    assert_eq!(params().validate(), None);
    assert_eq!(
        validate_input(&params(), &vec![B1Sample::flat(); B1_SAMPLES], &decay_table(), &vec![rep]),
        None
    );
}

#[test]
fn readout_is_active_where_the_usage_is_positive() {
    assert_eq!(adc_mask_of(&vec![0, 1, -1, 7, i32::MIN]), vec![false, true, false, true, false]);
    assert!(adc_mask_of(&vec![]).is_empty());
}
