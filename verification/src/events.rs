//! The event step: how the candidates of a repetition evolve through its events.
use crate::fixed::{abs_i64, lemma_scaled_in_range, Complex, AMP_LIMIT, ONE};
use crate::graph::{
    edges_into, node_bounded, population_bounded, population_view, DistType, Distribution, Node,
    Offset, Vec3,
};
use crate::pulse::is_baseline;
use crate::tables::DecayTable;
use crate::timeline::{Params, Repetition, K_LIMIT, TIME_LIMIT};
use vstd::prelude::*;

verus! {

/// The fixed-point exponent `dt / t` of a relaxation over the time `dt` with time constant
/// `t`. With a time constant of zero the exponent of any positive time is the largest
/// there is, for which the decay table gives its last sample.
pub open spec fn exponent_ratio(dt: int, t: int) -> nat {
    if t <= 0 {
        if dt <= 0 {
            0
        } else {
            u128::MAX as nat
        }
    } else {
        (dt * ONE / t) as nat
    }
}

/// Computes the exponent of a relaxation.
pub fn ratio(dt: u64, t: i64) -> (r: u128)
    requires
        0 <= t,
    ensures
        r == exponent_ratio(dt as int, t as int),
{
    if t == 0 {
        if dt == 0 {
            0
        } else {
            u128::MAX
        }
    } else {
        assert(dt * ONE <= 0x4000_0000_0000_0000_0000_0000) by (nonlinear_arith)
            requires
                0 <= dt <= 0xFFFF_FFFF_FFFF_FFFF,
                ONE == 0x4000_0000,
        ;
        (dt as u128 * ONE as u128) / (t as u128)
    }
}

/// The factor by which the amplitude of a distribution of the given type decays over the
/// time `dt`: longitudinal magnetization with `t1`, transverse with `t2`. The additional
/// dephasing with `t2dash` never enters an amplitude: it weights what a readout records.
pub open spec fn relaxation(dist_type: DistType, dt: i64, p: Params, decay: &DecayTable) -> i64 {
    match dist_type {
        DistType::Z => decay.factor(exponent_ratio(dt as int, p.t1 as int)),
        _ => decay.factor(exponent_ratio(dt as int, p.t2 as int)),
    }
}

/// Computes the relaxation factor.
pub fn relaxation_factor(dist_type: DistType, dt: i64, p: &Params, decay: &DecayTable) -> (r: i64)
    requires
        0 <= dt <= TIME_LIMIT,
        p.valid(),
        decay.valid(),
    ensures
        r == relaxation(dist_type, dt, *p, decay),
        0 <= r <= ONE,
{
    match dist_type {
        DistType::Z => decay.decay(ratio(dt as u64, p.t1)),
        _ => decay.decay(ratio(dt as u64, p.t2)),
    }
}

/// The magnitude of one offset component in the unit in which diffusion is measured.
pub open spec fn scaled_offset(k: int, s: int) -> nat {
    ((if k >= 0 {
        k
    } else {
        -k
    }) * s / (ONE as int)) as nat
}

/// The squared magnitude of the offset in the unit in which diffusion is measured.
pub open spec fn diffusion_weight(k: Vec3, scale: Vec3) -> nat {
    scaled_offset(k.x as int, scale.x as int) * scaled_offset(k.x as int, scale.x as int)
        + scaled_offset(k.y as int, scale.y as int) * scaled_offset(k.y as int, scale.y as int)
        + scaled_offset(k.z as int, scale.z as int) * scaled_offset(k.z as int, scale.z as int)
}

/// The fixed-point exponent of the diffusion attenuation over the time `dt` at the offset
/// `k`: the diffusion coefficient times the squared magnitude of the offset times `dt`.
/// The coefficient counts in units of `1 / (ONE * ONE)`, hence the division.
pub open spec fn diffusion_exponent(p: Params, k: Vec3, dt: i64) -> nat {
    (p.d * diffusion_weight(k, p.grad_scale) * dt / (ONE as int)) as nat
}

/// Computes the square of one scaled offset component.
fn squared_component(k: i64, s: i64) -> (r: u128)
    requires
        -K_LIMIT <= k <= K_LIMIT,
        0 <= s <= K_LIMIT,
    ensures
        r == scaled_offset(k as int, s as int) * scaled_offset(k as int, s as int),
        r <= 0x1_0000_0000_0000_0000,
{
    let a: u128 = abs_i64(k) as u128;
    let b: u128 = s as u128;
    assert(a * b <= 0x4000_0000_0000_0000) by (nonlinear_arith)
        requires
            a <= 0x8000_0000,
            b <= 0x8000_0000,
    ;
    let q: u128 = (a * b) / (ONE as u128);
    assert(q <= 0x1_0000_0000) by (nonlinear_arith)
        requires
            q == (a * b) / 0x4000_0000,
            a * b <= 0x4000_0000_0000_0000,
    ;
    assert(q * q <= 0x1_0000_0000_0000_0000) by (nonlinear_arith)
        requires
            q <= 0x1_0000_0000,
    ;
    q * q
}

/// Computes the exponent of the diffusion attenuation.
pub fn diffusion_exponent_of(p: &Params, k: &Vec3, dt: i64) -> (r: u128)
    requires
        p.valid(),
        k.within(K_LIMIT),
        0 <= dt <= TIME_LIMIT,
    ensures
        r == diffusion_exponent(*p, *k, dt),
{
    let w: u128 = squared_component(k.x, p.grad_scale.x) + squared_component(
        k.y,
        p.grad_scale.y,
    ) + squared_component(k.z, p.grad_scale.z);
    let d: u128 = p.d as u128;
    let t: u128 = dt as u128;
    assert(d * w <= 0xC000_0000_0000_0000_0000_0000) by (nonlinear_arith)
        requires
            d <= 0x4000_0000,
            w <= 0x3_0000_0000_0000_0000,
    ;
    assert(d * w * t <= 0x6000_0000_0000_0000_0000_0000_0000_0000) by (nonlinear_arith)
        requires
            d * w <= 0xC000_0000_0000_0000_0000_0000,
            t <= 0x8000_0000,
    ;
    (d * w * t) / (ONE as u128)
}

/// The offset after an event with gradient moment `g`: transverse magnetization of type
/// `P` moves by `g`, its conjugate partner by `-g`, longitudinal magnetization stays.
pub open spec fn advanced(dist_type: DistType, k: Vec3, g: Vec3) -> (int, int, int) {
    match dist_type {
        DistType::Z => (k.x as int, k.y as int, k.z as int),
        DistType::P => (k.x + g.x, k.y + g.y, k.z + g.z),
        DistType::M => (k.x - g.x, k.y - g.y, k.z - g.z),
    }
}

/// The offset with the given components, if all are within `K_LIMIT`.
pub open spec fn offset_of(a: (int, int, int)) -> Option<Vec3> {
    if -K_LIMIT <= a.0 <= K_LIMIT && -K_LIMIT <= a.1 <= K_LIMIT && -K_LIMIT <= a.2 <= K_LIMIT {
        Some(Vec3 { x: a.0 as i64, y: a.1 as i64, z: a.2 as i64 })
    } else {
        None
    }
}

/// Every component of the offset is within the cutoff of its axis.
pub open spec fn within_cutoff(k: Vec3, nyquist: Vec3) -> bool {
    &&& -nyquist.x <= k.x <= nyquist.x
    &&& -nyquist.y <= k.y <= nyquist.y
    &&& -nyquist.z <= k.z <= nyquist.z
}

/// Largest magnitude of a dephasing time; beyond it the time stays where it is.
pub const DEPHASING_LIMIT: i64 = 0x4000_0000_0000_0000;

/// The dephasing time after an event of duration `dt`: for transverse magnetization of
/// type `P` it grows by `dt`, for its conjugate partner it falls by `dt`, for longitudinal
/// magnetization it stays; it is held at `DEPHASING_LIMIT` in magnitude.
pub open spec fn dephased(dist_type: DistType, tau: i64, dt: i64) -> i64 {
    let moved = match dist_type {
        DistType::Z => tau as int,
        DistType::P => tau + dt,
        DistType::M => tau - dt,
    };
    if moved > DEPHASING_LIMIT {
        DEPHASING_LIMIT
    } else if moved < -DEPHASING_LIMIT {
        (-DEPHASING_LIMIT) as i64
    } else {
        moved as i64
    }
}

/// The weight of the additional dephasing at a readout: the decay with `t2dash` over the
/// magnitude of the dephasing time.
pub open spec fn dephasing_weight(tau: i64, p: Params, decay: &DecayTable) -> i64 {
    decay.factor(exponent_ratio(if tau >= 0 { tau as int } else { -tau }, p.t2dash as int))
}

/// What a readout adds to the recorded signal of a distribution with amplitude `mag` at
/// the offset `kt`: where the distribution is transverse and the offset within the
/// cutoff, the magnitude of the amplitude times the weight of the additional dephasing;
/// nothing otherwise.
pub open spec fn readout_contribution(
    dist_type: DistType,
    mag: Complex,
    kt: Offset,
    p: Params,
    decay: &DecayTable,
) -> nat {
    if dist_type != DistType::Z && within_cutoff(kt.k, p.nyquist) {
        mag.norm() * (dephasing_weight(kt.dephasing, p, decay) as nat) / (ONE as nat)
    } else {
        0
    }
}

/// The sum of two signals, held at the largest representable value where it exceeds it.
pub open spec fn capped_sum(a: nat, b: nat) -> u64 {
    if a + b > u64::MAX {
        u64::MAX
    } else {
        (a + b) as u64
    }
}

/// The diffusion summary after an event with the exponent `x`.
pub open spec fn summed(summary: Option<u128>, x: nat) -> Option<u128> {
    match summary {
        None => None,
        Some(b) => Some(
            if b + x > u128::MAX {
                u128::MAX
            } else {
                (b + x) as u128
            },
        ),
    }
}

/// The node after one event of duration `dt` with gradient moment `g`.
///
/// The offset and the dephasing time advance; the amplitude decays by relaxation and
/// then by diffusion at the new offset; the baseline, which is longitudinal, then
/// recovers toward equilibrium by what longitudinal relaxation takes from equilibrium; at
/// a readout the magnitude of the new amplitude, weighted by the additional dephasing,
/// is recorded if the node is transverse and within the cutoff. `None` where the offset
/// leaves its range.
pub open spec fn evolve(
    node: Node,
    baseline: bool,
    dt: i64,
    g: Vec3,
    readout: bool,
    p: Params,
    decay: &DecayTable,
) -> Option<Node> {
    match offset_of(advanced(node.dist_type, node.kt_vec.k, g)) {
        None => None,
        Some(k) => {
            let x = diffusion_exponent(p, k, dt);
            let relaxed = node.mag.scaled(relaxation(node.dist_type, dt, p, decay));
            let diffused = relaxed.scaled(decay.factor(x));
            let mag = if baseline && node.dist_type == DistType::Z {
                recovered(diffused, decay.factor(exponent_ratio(dt as int, p.t1 as int)))
            } else {
                diffused
            };
            let kt = Offset {
                k,
                dephasing: dephased(node.dist_type, node.kt_vec.dephasing, dt),
                diffusion: summed(node.kt_vec.diffusion, x),
            };
            Some(
                Node {
                    mag,
                    kt_vec: kt,
                    recorded: if readout {
                        capped_sum(
                            node.recorded as nat,
                            readout_contribution(node.dist_type, mag, kt, p, decay),
                        )
                    } else {
                        node.recorded
                    },
                    ..node
                },
            )
        },
    }
}

/// The amplitude of the baseline after recovery: where longitudinal relaxation has left
/// the fraction `e1` of what was there, the fraction `ONE - e1` of the equilibrium
/// magnetization has grown back.
pub open spec fn recovered(a: Complex, e1: i64) -> Complex {
    Complex { re: (a.re + ONE - e1) as i64, im: a.im }
}

/// A longitudinal amplitude in range that has decayed by `e1`, and by diffusion, is
/// still in range after recovery.
pub proof fn lemma_recovery_in_range(a: Complex, e1: i64, f: i64)
    requires
        a.in_range(),
        0 <= e1 <= ONE,
        0 <= f <= ONE,
    ensures
        -AMP_LIMIT <= a.scaled(e1).scaled(f).re + ONE - e1 <= AMP_LIMIT,
        -AMP_LIMIT <= a.scaled(e1).scaled(f).im <= AMP_LIMIT,
{
    let relaxed = a.scaled(e1);
    lemma_scaled_in_range(a.re as int, e1 as int);
    lemma_scaled_in_range(a.im as int, e1 as int);
    lemma_scaled_in_range(relaxed.re as int, f as int);
    lemma_scaled_in_range(relaxed.im as int, f as int);
    assert(a.re * e1 <= 0x100_0000_0000 * e1) by (nonlinear_arith)
        requires
            a.re <= 0x100_0000_0000,
            0 <= e1,
    ;
}

/// Computes the offset after an event, if it stays within range.
fn advance(dist_type: DistType, k: &Vec3, g: &Vec3) -> (r: Option<Vec3>)
    requires
        k.within(K_LIMIT),
        g.within(K_LIMIT),
    ensures
        r == offset_of(advanced(dist_type, *k, *g)),
        r.is_some() ==> r.unwrap().within(K_LIMIT),
{
    let moved = match dist_type {
        DistType::Z => Vec3 { x: k.x, y: k.y, z: k.z },
        DistType::P => Vec3 { x: k.x + g.x, y: k.y + g.y, z: k.z + g.z },
        DistType::M => Vec3 { x: k.x - g.x, y: k.y - g.y, z: k.z - g.z },
    };
    if moved.is_within(K_LIMIT) {
        Some(moved)
    } else {
        None
    }
}

/// Computes the dephasing time after an event.
pub fn dephase(dist_type: DistType, tau: i64, dt: i64) -> (r: i64)
    ensures
        r == dephased(dist_type, tau, dt),
{
    let moved: i128 = match dist_type {
        DistType::Z => tau as i128,
        DistType::P => tau as i128 + dt as i128,
        DistType::M => tau as i128 - dt as i128,
    };
    if moved > DEPHASING_LIMIT as i128 {
        DEPHASING_LIMIT
    } else if moved < -(DEPHASING_LIMIT as i128) {
        -DEPHASING_LIMIT
    } else {
        moved as i64
    }
}

/// Tells whether every component of the offset is within the cutoff of its axis.
pub fn is_within_cutoff(k: &Vec3, nyquist: &Vec3) -> (r: bool)
    requires
        k.within(K_LIMIT),
        nyquist.positive_within(i64::MAX),
    ensures
        r == within_cutoff(*k, *nyquist),
{
    -nyquist.x <= k.x && k.x <= nyquist.x && -nyquist.y <= k.y && k.y <= nyquist.y && -nyquist.z
        <= k.z && k.z <= nyquist.z
}

/// Lets one distribution evolve through one event. Returns `false`, and leaves the
/// distribution as it was, where the offset leaves its range.
pub fn evolve_node(
    d: &mut Distribution,
    baseline: bool,
    dt: i64,
    g: &Vec3,
    readout: bool,
    p: &Params,
    decay: &DecayTable,
) -> (ok: bool)
    requires
        node_bounded(old(d)@),
        0 <= dt <= TIME_LIMIT,
        g.within(K_LIMIT),
        p.valid(),
        decay.valid(),
    ensures
        match evolve(old(d)@, baseline, dt, *g, readout, *p, decay) {
            Some(n) => ok && final(d)@ == n && node_bounded(n),
            None => !ok && *final(d) == *old(d),
        },
{
    let k = match advance(d.dist_type, &d.kt_vec.k, g) {
        None => {
            return false;
        },
        Some(k) => k,
    };
    let x = diffusion_exponent_of(p, &k, dt);
    let relaxed = d.mag.scale(relaxation_factor(d.dist_type, dt, p, decay));
    let diffused = relaxed.scale(decay.decay(x));
    let mag = match (baseline, d.dist_type) {
        (true, DistType::Z) => {
            let e1 = decay.decay(ratio(dt as u64, p.t1));
            proof {
                lemma_recovery_in_range(d.mag, e1, decay.factor(x as nat));
            }
            Complex { re: diffused.re + ONE - e1, im: diffused.im }
        },
        _ => diffused,
    };
    let summary = match d.kt_vec.diffusion {
        None => None,
        Some(b) => Some(b.saturating_add(x)),
    };
    let tau = dephase(d.dist_type, d.kt_vec.dephasing, dt);
    if readout {
        let amount: u64 = if d.dist_type != DistType::Z && is_within_cutoff(&k, &p.nyquist) {
            let weight = decay.decay(ratio(abs_i64(tau), p.t2dash));
            let norm = mag.magnitude();
            assert(norm as u128 * weight as u128 <= norm as u128 * 0x4000_0000) by (nonlinear_arith)
                requires
                    0 <= weight <= 0x4000_0000,
            ;
            ((norm as u128 * weight as u128) / (ONE as u128)) as u64
        } else {
            0
        };
        d.recorded = d.recorded.saturating_add(amount);
    }
    d.mag = mag;
    d.kt_vec = Offset { k, dephasing: tau, diffusion: summary };
    true
}

/// Every candidate gets through the event with its offset in range.
pub open spec fn all_evolve(
    c: Seq<Node>,
    dt: i64,
    g: Vec3,
    readout: bool,
    p: Params,
    decay: &DecayTable,
) -> bool {
    forall|i: int|
        0 <= i < c.len() ==> evolve(#[trigger] c[i], i == 0, dt, g, readout, p, decay).is_some()
}

/// The candidates after one event: each one evolved, the first of them as the baseline.
/// `None` where an offset leaves its range.
pub open spec fn evolve_all(
    c: Seq<Node>,
    dt: i64,
    g: Vec3,
    readout: bool,
    p: Params,
    decay: &DecayTable,
) -> Option<Seq<Node>> {
    if all_evolve(c, dt, g, readout, p, decay) {
        Some(Seq::new(c.len(), |i: int| evolve(c[i], i == 0, dt, g, readout, p, decay).unwrap()))
    } else {
        None
    }
}

/// The candidates after the first `n` events of the repetition, or the number of the
/// first event at which an offset leaves its range.
pub open spec fn evolved(
    c: Seq<Node>,
    rep: &Repetition,
    n: int,
    p: Params,
    decay: &DecayTable,
) -> Result<Seq<Node>, usize>
    decreases n,
{
    if n <= 0 {
        Ok(c)
    } else {
        match evolved(c, rep, n - 1, p, decay) {
            Err(e) => Err(e),
            Ok(s) => match evolve_all(
                s,
                rep.event_time@[n - 1],
                rep.gradm_event@[n - 1],
                rep.adc_mask@[n - 1],
                p,
                decay,
            ) {
                None => Err((n - 1) as usize),
                Some(s2) => Ok(s2),
            },
        }
    }
}

/// An event changes neither the type of a node nor its ancestors, and it leaves the
/// offset of a longitudinal node where it was.
pub proof fn lemma_evolve_keeps(
    node: Node,
    baseline: bool,
    dt: i64,
    g: Vec3,
    readout: bool,
    p: Params,
    decay: &DecayTable,
)
    requires
        node.kt_vec.k.within(K_LIMIT),
    ensures
        match evolve(node, baseline, dt, g, readout, p, decay) {
            Some(n) => {
                &&& n.dist_type == node.dist_type
                &&& n.ancestors == node.ancestors
                &&& n.latent_signal == node.latent_signal
                &&& n.signal == node.signal
                &&& n.rel_signal == node.rel_signal
                &&& n.recorded >= node.recorded
                &&& node.dist_type == DistType::Z ==> n.kt_vec.k == node.kt_vec.k
                &&& n.kt_vec.k.within(K_LIMIT)
            },
            None => true,
        },
{
}

/// Lets every candidate evolve through one event. Returns `false` where an offset leaves
/// its range.
pub fn apply_event(
    c: &mut Vec<Distribution>,
    dt: i64,
    g: &Vec3,
    readout: bool,
    p: &Params,
    decay: &DecayTable,
) -> (ok: bool)
    requires
        population_bounded(population_view(old(c)@)),
        0 <= dt <= TIME_LIMIT,
        g.within(K_LIMIT),
        p.valid(),
        decay.valid(),
    ensures
        match evolve_all(population_view(old(c)@), dt, *g, readout, *p, decay) {
            Some(s) => ok && population_view(final(c)@) == s && population_bounded(s),
            None => !ok,
        },
{
    let ghost before = population_view(c@);
    let n = c.len();
    let mut i: usize = 0;
    while i < n
        invariant
            n == c@.len(),
            before.len() == n,
            before == population_view(old(c)@),
            i <= n,
            population_bounded(before),
            0 <= dt <= TIME_LIMIT,
            g.within(K_LIMIT),
            p.valid(),
            decay.valid(),
            forall|j: int|
                0 <= j < i ==> evolve(#[trigger] before[j], j == 0, dt, *g, readout, *p, decay)
                    == Some(c@[j]@),
            forall|j: int| 0 <= j < i ==> node_bounded(#[trigger] c@[j]@),
            forall|j: int| i <= j < n ==> (#[trigger] c@[j])@ == before[j],
        decreases n - i,
    {
        assert(node_bounded(before[i as int]));
        assert(c@[i as int]@ == before[i as int]);
        let ghost snapshot = c@;
        if !evolve_node(&mut c[i], i == 0, dt, g, readout, p, decay) {
            assert(!all_evolve(before, dt, *g, readout, *p, decay)) by {
                assert(evolve(before[i as int], i == 0, dt, *g, readout, *p, decay).is_none());
            }
            return false;
        }
        assert forall|j: int| i < j < n implies (#[trigger] c@[j])@ == before[j] by {
            assert(c@[j] == snapshot[j]);
        }
        assert forall|j: int| 0 <= j < i implies evolve(
            #[trigger] before[j],
            j == 0,
            dt,
            *g,
            readout,
            *p,
            decay,
        ) == Some(c@[j]@) by {
            assert(c@[j] == snapshot[j]);
        }
        assert forall|j: int| 0 <= j < i implies node_bounded(#[trigger] c@[j]@) by {
            assert(c@[j] == snapshot[j]);
        }
        i += 1;
    }
    proof {
        let s = Seq::new(
            before.len(),
            |i: int| evolve(before[i], i == 0, dt, *g, readout, *p, decay).unwrap(),
        );
        assert(population_view(c@) =~= s);
        assert forall|j: int| 0 <= j < s.len() implies node_bounded(#[trigger] s[j]) by {
            assert(s[j] == c@[j]@);
        }
    }
    true
}

/// The event step: lets the candidates evolve through all events of the repetition, in
/// temporal order. Returns the number of the first event at which an offset leaves its
/// range.
pub fn event_step(c: &mut Vec<Distribution>, rep: &Repetition, p: &Params, decay: &DecayTable) -> (r:
    Result<(), usize>)
    requires
        population_bounded(population_view(old(c)@)),
        rep.valid(),
        p.valid(),
        decay.valid(),
    ensures
        match evolved(population_view(old(c)@), rep, rep.event_time@.len() as int, *p, decay) {
            Ok(s) => r.is_ok() && population_view(final(c)@) == s && population_bounded(s),
            Err(e) => r == Err::<(), usize>(e),
        },
{
    let ghost before = population_view(c@);
    let n = rep.event_time.len();
    let mut e: usize = 0;
    while e < n
        invariant
            n == rep.event_time@.len(),
            e <= n,
            before == population_view(old(c)@),
            rep.valid(),
            p.valid(),
            decay.valid(),
            evolved(before, rep, e as int, *p, decay) == Ok::<Seq<Node>, usize>(
                population_view(c@),
            ),
            population_bounded(population_view(c@)),
        decreases n - e,
    {
        assert(rep.event_ok(e as int));
        if !apply_event(c, rep.event_time[e], &rep.gradm_event[e], rep.adc_mask[e], p, decay) {
            proof {
                assert(evolved(before, rep, e as int + 1, *p, decay) == Err::<Seq<Node>, usize>(e));
                lemma_evolved_fails(before, rep, e as int + 1, n as int, *p, decay);
            }
            return Err(e);
        }
        e += 1;
    }
    Ok(())
}

/// Once the events have failed at some event, they have failed at that event for every
/// longer run of events.
pub proof fn lemma_evolved_fails(
    c: Seq<Node>,
    rep: &Repetition,
    m: int,
    n: int,
    p: Params,
    decay: &DecayTable,
)
    requires
        m <= n,
        evolved(c, rep, m, p, decay).is_err(),
    ensures
        evolved(c, rep, n, p, decay) == evolved(c, rep, m, p, decay),
    decreases n - m,
{
    if m < n {
        lemma_evolved_fails(c, rep, m, n - 1, p, decay);
    }
}

/// Events keep the candidates in order: the baseline stays first, and every ancestor edge
/// stays as it was.
pub proof fn lemma_evolved_ok(
    c: Seq<Node>,
    rep: &Repetition,
    n: int,
    p: Params,
    decay: &DecayTable,
    repetition: usize,
    count: int,
)
    requires
        c.len() >= 1,
        is_baseline(c[0]),
        edges_into(c, repetition, count),
        forall|i: int| 0 <= i < c.len() ==> (#[trigger] c[i]).kt_vec.k.within(K_LIMIT),
    ensures
        match evolved(c, rep, n, p, decay) {
            Ok(s) => {
                &&& s.len() == c.len()
                &&& is_baseline(s[0])
                &&& edges_into(s, repetition, count)
                &&& forall|i: int| 0 <= i < s.len() ==> (#[trigger] s[i]).kt_vec.k.within(K_LIMIT)
            },
            Err(_) => true,
        },
    decreases n,
{
    if n > 0 {
        lemma_evolved_ok(c, rep, n - 1, p, decay, repetition, count);
        match evolved(c, rep, n - 1, p, decay) {
            Err(_) => {},
            Ok(s) => {
                let dt = rep.event_time@[n - 1];
                let g = rep.gradm_event@[n - 1];
                let readout = rep.adc_mask@[n - 1];
                match evolve_all(s, dt, g, readout, p, decay) {
                    None => {},
                    Some(s2) => {
                        assert forall|i: int| 0 <= i < s2.len() implies (#[trigger] s2[i]).kt_vec.k.within(
                            K_LIMIT,
                        ) && s2[i].ancestors == s[i].ancestors && s2[i].dist_type
                            == s[i].dist_type && (s[i].dist_type == DistType::Z ==> s2[i].kt_vec.k
                            == s[i].kt_vec.k) by {
                            assert(s[i].kt_vec.k.within(K_LIMIT));
                            lemma_evolve_keeps(s[i], i == 0, dt, g, readout, p, decay);
                        }
                        assert(s2[0].dist_type == s[0].dist_type);
                        assert forall|i: int, a: int|
                            0 <= i < s2.len() && 0 <= a < s2[i].ancestors.len() implies (
                        #[trigger] s2[i].ancestors[a]).repetition == repetition
                            && s2[i].ancestors[a].index < count by {
                            assert(s2[i].ancestors == s[i].ancestors);
                            assert(s[i].ancestors[a].repetition == repetition);
                        }
                    },
                }
            },
        }
    }
}

/// A node that gets through an event has its amplitude and its offset in range.
pub proof fn lemma_evolve_bounded(
    node: Node,
    baseline: bool,
    dt: i64,
    g: Vec3,
    readout: bool,
    p: Params,
    decay: &DecayTable,
)
    requires
        node_bounded(node),
        decay.valid(),
    ensures
        match evolve(node, baseline, dt, g, readout, p, decay) {
            Some(n) => node_bounded(n),
            None => true,
        },
{
    match offset_of(advanced(node.dist_type, node.kt_vec.k, g)) {
        None => {},
        Some(k) => {
            let x = diffusion_exponent(p, k, dt);
            let f1 = relaxation(node.dist_type, dt, p, decay);
            let f2 = decay.factor(x);
            let relaxed = node.mag.scaled(f1);
            let diffused = relaxed.scaled(f2);
            lemma_factor_keeps_range(node.mag, f1);
            lemma_factor_keeps_range(relaxed, f2);
            if node.dist_type == DistType::Z {
                lemma_recovery_in_range(node.mag, f1, f2);
            }
        },
    }
}

/// An amplitude in range stays in range when it is multiplied by any factor that the
/// builder uses.
pub proof fn lemma_factor_keeps_range(a: Complex, f: i64)
    requires
        a.in_range(),
        0 <= f <= ONE,
    ensures
        a.scaled(f).in_range(),
{
    lemma_scaled_in_range(a.re as int, f as int);
    lemma_scaled_in_range(a.im as int, f as int);
}

/// A readout at an offset beyond the cutoff records nothing, and a longitudinal node
/// never records anything; a transverse node within the cutoff records the magnitude of
/// its amplitude, weighted by the additional dephasing.
pub proof fn lemma_readout_cutoff(
    node: Node,
    baseline: bool,
    dt: i64,
    g: Vec3,
    readout: bool,
    p: Params,
    decay: &DecayTable,
)
    ensures
        match evolve(node, baseline, dt, g, readout, p, decay) {
            Some(n) => {
                &&& !within_cutoff(n.kt_vec.k, p.nyquist) ==> n.recorded == node.recorded
                &&& node.dist_type == DistType::Z ==> n.recorded == node.recorded
                &&& !readout ==> n.recorded == node.recorded
                &&& readout && node.dist_type != DistType::Z && within_cutoff(
                    n.kt_vec.k,
                    p.nyquist,
                ) ==> n.recorded == capped_sum(
                    node.recorded as nat,
                    n.mag.norm() * (dephasing_weight(n.kt_vec.dephasing, p, decay) as nat) / (
                    ONE as nat),
                )
            },
            None => true,
        },
{
}

/// Without diffusion an event multiplies the amplitude by the relaxation factor of the
/// time it takes, and by nothing else; the baseline then gains what longitudinal
/// relaxation took from equilibrium.
pub proof fn lemma_pure_relaxation(
    node: Node,
    baseline: bool,
    dt: i64,
    g: Vec3,
    readout: bool,
    p: Params,
    decay: &DecayTable,
)
    requires
        decay.valid(),
        p.d == 0,
        node.mag.in_range(),
    ensures
        match evolve(node, baseline, dt, g, readout, p, decay) {
            Some(n) => {
                let relaxed = node.mag.scaled(relaxation(node.dist_type, dt, p, decay));
                if baseline && node.dist_type == DistType::Z {
                    n.mag.re == relaxed.re + ONE - decay.factor(
                        exponent_ratio(dt as int, p.t1 as int),
                    ) && n.mag.im == relaxed.im
                } else {
                    n.mag == relaxed
                }
            },
            None => true,
        },
{
    match offset_of(advanced(node.dist_type, node.kt_vec.k, g)) {
        None => {},
        Some(k) => {
            let w = diffusion_weight(k, p.grad_scale);
            assert(p.d * w * dt == 0) by (nonlinear_arith)
                requires
                    p.d == 0,
            ;
            crate::tables::lemma_decay_zero(decay);
            let relaxed = node.mag.scaled(relaxation(node.dist_type, dt, p, decay));
            lemma_factor_keeps_range(node.mag, relaxation(node.dist_type, dt, p, decay));
            lemma_scaled_by_one(relaxed);
            if node.dist_type == DistType::Z {
                lemma_recovery_in_range(node.mag, relaxation(node.dist_type, dt, p, decay), ONE);
            }
        },
    }
}

/// Multiplying by `ONE` changes nothing.
pub proof fn lemma_scaled_by_one(a: Complex)
    ensures
        a.scaled(ONE) == a,
{
    assert(a.re * ONE == a.re * 0x4000_0000) by (nonlinear_arith)
        requires
            ONE == 0x4000_0000,
    ;
    assert(a.im * ONE == a.im * 0x4000_0000) by (nonlinear_arith)
        requires
            ONE == 0x4000_0000,
    ;
}

/// Diffusion attenuates more, or as much, where the squared magnitude of the offset is
/// larger, and where the event takes longer.
pub proof fn lemma_diffusion_monotone(p: Params, k1: Vec3, k2: Vec3, dt1: i64, dt2: i64, decay: &DecayTable)
    requires
        decay.valid(),
        p.d >= 0,
        0 <= dt1 <= dt2,
        diffusion_weight(k1, p.grad_scale) <= diffusion_weight(k2, p.grad_scale),
    ensures
        diffusion_exponent(p, k1, dt1) <= diffusion_exponent(p, k2, dt2),
        decay.factor(diffusion_exponent(p, k2, dt2)) <= decay.factor(
            diffusion_exponent(p, k1, dt1),
        ),
{
    let w1 = diffusion_weight(k1, p.grad_scale) as int;
    let w2 = diffusion_weight(k2, p.grad_scale) as int;
    assert(0 <= p.d * w1 * dt1 <= p.d * w2 * dt2) by (nonlinear_arith)
        requires
            p.d >= 0,
            0 <= w1 <= w2,
            0 <= dt1 <= dt2,
    ;
    vstd::arithmetic::div_mod::lemma_div_is_ordered(p.d * w1 * dt1, p.d * w2 * dt2, ONE as int);
    crate::tables::lemma_decay_monotone(
        decay,
        diffusion_exponent(p, k1, dt1),
        diffusion_exponent(p, k2, dt2),
    );
}

/// Relaxation takes more, or as much, from an amplitude where the event takes longer.
pub proof fn lemma_relaxation_monotone(t: i64, dt1: i64, dt2: i64, decay: &DecayTable)
    requires
        decay.valid(),
        0 <= dt1 <= dt2,
        0 <= t,
    ensures
        decay.factor(exponent_ratio(dt2 as int, t as int)) <= decay.factor(
            exponent_ratio(dt1 as int, t as int),
        ),
{
    if t > 0 {
        assert(0 <= dt1 * ONE <= dt2 * ONE) by (nonlinear_arith)
            requires
                0 <= dt1 <= dt2,
                ONE > 0,
        ;
        vstd::arithmetic::div_mod::lemma_div_is_ordered(dt1 * ONE, dt2 * ONE, t as int);
        assert(0 <= (dt1 * ONE) / (t as int)) by (nonlinear_arith)
            requires
                0 <= dt1 * ONE,
                t > 0,
        ;
    }
    crate::tables::lemma_decay_monotone(
        decay,
        exponent_ratio(dt1 as int, t as int),
        exponent_ratio(dt2 as int, t as int),
    );
}

} // verus!
