//! The pulse step: how a pulse mixes the distributions of one population into the next.
use crate::fixed::{div_toward_zero, quotient, Complex, ONE};
use crate::graph::{
    edges_into, node_bounded, population_bounded, population_view, DistType, Distribution, Edge,
    Node, Offset, Relation, Vec3,
};
use crate::tables::Mixing;
use crate::timeline::K_LIMIT;
use vstd::prelude::*;

verus! {

/// The coefficients of all transitions that one pulse causes.
#[derive(Clone, Copy, PartialEq, Eq, Structural, Debug)]
pub struct Transitions {
    /// Longitudinal magnetization that stays longitudinal.
    pub carried_z: Complex,
    /// Transverse magnetization that keeps its type.
    pub carried_t: Complex,
    /// Longitudinal magnetization that becomes `P`.
    pub excited: Complex,
    /// `P` that becomes longitudinal.
    pub stored_p: Complex,
    /// `M` that becomes longitudinal.
    pub stored_m: Complex,
    /// `P` that becomes `M`.
    pub refocused_p: Complex,
    /// `M` that becomes `P`.
    pub refocused_m: Complex,
}

/// The complex number with the given components.
pub open spec fn complex(c: (int, int)) -> Complex {
    Complex { re: c.0 as i64, im: c.1 as i64 }
}

/// Half of a complex number, each component rounded toward zero.
pub open spec fn halved(c: (int, int)) -> (int, int) {
    (div_toward_zero(c.0, 2), div_toward_zero(c.1, 2))
}

/// The real fixed-point number `x` as a complex number.
pub open spec fn purely_real(x: int) -> Complex {
    Complex { re: x as i64, im: 0 }
}

/// The square of the phase factor of a pulse.
pub open spec fn phase_squared(m: Mixing) -> Complex {
    let u = Complex { re: m.phase.cos, im: m.phase.sin };
    complex(u.product(u))
}

/// The coefficients of the transitions that a pulse with the given mixing causes.
///
/// With `S` and `C` the averaged sine and cosine of the flip angle and `u` the phase
/// factor: magnetization keeps its type with `C` (longitudinal) or `(1 + C) / 2`
/// (transverse); longitudinal becomes `P` with `-i u S`; `P` and `M` become longitudinal
/// with `-i conj(u) S / 2` and `i u S / 2`; `P` becomes `M` with `conj(u u) (1 - C) / 2`
/// and `M` becomes `P` with `u u (1 - C) / 2`. Each coefficient is linear in the sine
/// and the cosine of the flip angle, so that the coefficient of their averages is the
/// average of the coefficients over the samples of the mixing table.
pub open spec fn transitions(m: Mixing) -> Transitions {
    let s = purely_real(m.sin as int);
    let rest = purely_real(div_toward_zero(ONE - m.cos, 2));
    let uu = phase_squared(m);
    Transitions {
        carried_z: purely_real(m.cos as int),
        carried_t: purely_real(div_toward_zero(ONE + m.cos, 2)),
        excited: complex((Complex { re: m.phase.sin, im: (-m.phase.cos) as i64 }).product(s)),
        stored_p: complex(
            halved((Complex { re: (-m.phase.sin) as i64, im: (-m.phase.cos) as i64 }).product(s)),
        ),
        stored_m: complex(
            halved((Complex { re: (-m.phase.sin) as i64, im: m.phase.cos }).product(s)),
        ),
        refocused_p: complex((Complex { re: uu.re, im: (-uu.im) as i64 }).product(rest)),
        refocused_m: complex(uu.product(rest)),
    }
}

impl Transitions {
    /// Every coefficient is small enough for products to be formed.
    pub open spec fn moderate(self) -> bool {
        &&& self.carried_z.moderate()
        &&& self.carried_t.moderate()
        &&& self.excited.moderate()
        &&& self.stored_p.moderate()
        &&& self.stored_m.moderate()
        &&& self.refocused_p.moderate()
        &&& self.refocused_m.moderate()
    }
}

/// The transition from a parent of one type to a child of another: its relation tag and
/// its coefficient; `None` where the pulse causes no such transition, which is the case
/// from longitudinal to `M` and wherever the coefficient is zero.
pub open spec fn transition(parent: DistType, child: DistType, t: Transitions) -> Option<
    (Relation, Complex),
> {
    let found = match (parent, child) {
        (DistType::Z, DistType::Z) => Some((Relation::Carried, t.carried_z)),
        (DistType::Z, DistType::P) => Some((Relation::Excited, t.excited)),
        (DistType::Z, DistType::M) => None,
        (DistType::P, DistType::Z) => Some((Relation::Stored, t.stored_p)),
        (DistType::P, DistType::P) => Some((Relation::Carried, t.carried_t)),
        (DistType::P, DistType::M) => Some((Relation::Refocused, t.refocused_p)),
        (DistType::M, DistType::Z) => Some((Relation::Stored, t.stored_m)),
        (DistType::M, DistType::P) => Some((Relation::Refocused, t.refocused_m)),
        (DistType::M, DistType::M) => Some((Relation::Carried, t.carried_t)),
    };
    match found {
        Some((_, factor)) if factor.is_zero() => None,
        _ => found,
    }
}

/// The sum or the difference of two products, each of a number of magnitude at most two
/// with one of magnitude at most three, in fixed point, has magnitude at most twelve.
proof fn lemma_unit_product(a: int, b: int, c: int, d: int)
    requires
        -0x8000_0000 <= a <= 0x8000_0000,
        -0x8000_0000 <= c <= 0x8000_0000,
        -0xC000_0000 <= b <= 0xC000_0000,
        -0xC000_0000 <= d <= 0xC000_0000,
    ensures
        -0xC000_0000_0000_0000 <= a * b + c * d <= 0xC000_0000_0000_0000,
        -0xC000_0000_0000_0000 <= a * b - c * d <= 0xC000_0000_0000_0000,
{
    assert(-0x6000_0000_0000_0000 <= a * b <= 0x6000_0000_0000_0000) by (nonlinear_arith)
        requires
            -0x8000_0000 <= a <= 0x8000_0000,
            -0xC000_0000 <= b <= 0xC000_0000,
    ;
    assert(-0x6000_0000_0000_0000 <= c * d <= 0x6000_0000_0000_0000) by (nonlinear_arith)
        requires
            -0x8000_0000 <= c <= 0x8000_0000,
            -0xC000_0000 <= d <= 0xC000_0000,
    ;
}

/// The components of the product of a complex number with components of magnitude at
/// most two and one with components of magnitude at most three have magnitude at most
/// twelve.
proof fn lemma_small_product(a: Complex, b: Complex)
    requires
        -0x8000_0000 <= a.re <= 0x8000_0000,
        -0x8000_0000 <= a.im <= 0x8000_0000,
        -0xC000_0000 <= b.re <= 0xC000_0000,
        -0xC000_0000 <= b.im <= 0xC000_0000,
    ensures
        -0x3_0000_0000 <= a.product(b).0 <= 0x3_0000_0000,
        -0x3_0000_0000 <= a.product(b).1 <= 0x3_0000_0000,
{
    lemma_unit_product(a.re as int, b.re as int, a.im as int, b.im as int);
    lemma_unit_product(a.re as int, b.im as int, a.im as int, b.re as int);
}

/// Computes the coefficients of the transitions that a pulse causes.
pub fn compute_transitions(m: &Mixing) -> (t: Transitions)
    requires
        m.bounded(),
    ensures
        t == transitions(*m),
        t.moderate(),
{
    let s = Complex { re: m.sin, im: 0 };
    let rest = Complex { re: quotient(ONE as i128 - m.cos as i128, 2) as i64, im: 0 };
    let u = Complex { re: m.phase.cos, im: m.phase.sin };
    proof {
        lemma_small_product(u, u);
    }
    let uu_wide = u.times(&u);
    let uu = Complex { re: uu_wide.0 as i64, im: uu_wide.1 as i64 };
    let uu_conj = Complex { re: uu.re, im: -uu.im };
    let to_p = Complex { re: m.phase.sin, im: -m.phase.cos };
    let from_p = Complex { re: -m.phase.sin, im: -m.phase.cos };
    let from_m = Complex { re: -m.phase.sin, im: m.phase.cos };
    proof {
        lemma_small_product(to_p, s);
        lemma_small_product(from_p, s);
        lemma_small_product(from_m, s);
        lemma_wide_product(uu_conj, rest);
        lemma_wide_product(uu, rest);
    }
    let excited = to_p.times(&s);
    let stored_p = from_p.times(&s);
    let stored_m = from_m.times(&s);
    let refocused_p = uu_conj.times(&rest);
    let refocused_m = uu.times(&rest);
    Transitions {
        carried_z: Complex { re: m.cos, im: 0 },
        carried_t: Complex { re: quotient(ONE as i128 + m.cos as i128, 2) as i64, im: 0 },
        excited: Complex { re: excited.0 as i64, im: excited.1 as i64 },
        stored_p: Complex {
            re: quotient(stored_p.0, 2) as i64,
            im: quotient(stored_p.1, 2) as i64,
        },
        stored_m: Complex {
            re: quotient(stored_m.0, 2) as i64,
            im: quotient(stored_m.1, 2) as i64,
        },
        refocused_p: Complex { re: refocused_p.0 as i64, im: refocused_p.1 as i64 },
        refocused_m: Complex { re: refocused_m.0 as i64, im: refocused_m.1 as i64 },
    }
}

/// The components of a product of two numbers of magnitude at most twelve, in fixed
/// point, fit in sixty-two bits.
proof fn lemma_wide_product(a: Complex, b: Complex)
    requires
        -0x3_0000_0000 <= a.re <= 0x3_0000_0000,
        -0x3_0000_0000 <= a.im <= 0x3_0000_0000,
        -0x3_0000_0000 <= b.re <= 0x3_0000_0000,
        -0x3_0000_0000 <= b.im <= 0x3_0000_0000,
    ensures
        -0x1000_0000_0000 <= a.product(b).0 <= 0x1000_0000_0000,
        -0x1000_0000_0000 <= a.product(b).1 <= 0x1000_0000_0000,
{
    let bound = |x: int, y: int| -0x9_0000_0000_0000_0000 <= x * y <= 0x9_0000_0000_0000_0000;
    assert(bound(a.re as int, b.re as int)) by (nonlinear_arith)
        requires
            -0x3_0000_0000 <= a.re <= 0x3_0000_0000,
            -0x3_0000_0000 <= b.re <= 0x3_0000_0000,
            bound(a.re as int, b.re as int) == (-0x9_0000_0000_0000_0000 <= a.re * b.re
                <= 0x9_0000_0000_0000_0000),
    ;
    assert(bound(a.im as int, b.im as int)) by (nonlinear_arith)
        requires
            -0x3_0000_0000 <= a.im <= 0x3_0000_0000,
            -0x3_0000_0000 <= b.im <= 0x3_0000_0000,
            bound(a.im as int, b.im as int) == (-0x9_0000_0000_0000_0000 <= a.im * b.im
                <= 0x9_0000_0000_0000_0000),
    ;
    assert(bound(a.re as int, b.im as int)) by (nonlinear_arith)
        requires
            -0x3_0000_0000 <= a.re <= 0x3_0000_0000,
            -0x3_0000_0000 <= b.im <= 0x3_0000_0000,
            bound(a.re as int, b.im as int) == (-0x9_0000_0000_0000_0000 <= a.re * b.im
                <= 0x9_0000_0000_0000_0000),
    ;
    assert(bound(a.im as int, b.re as int)) by (nonlinear_arith)
        requires
            -0x3_0000_0000 <= a.im <= 0x3_0000_0000,
            -0x3_0000_0000 <= b.re <= 0x3_0000_0000,
            bound(a.im as int, b.re as int) == (-0x9_0000_0000_0000_0000 <= a.im * b.re
                <= 0x9_0000_0000_0000_0000),
    ;
}

/// Finds the transition from a parent of one type to a child of another.
pub fn find_transition(parent: DistType, child: DistType, t: &Transitions) -> (r: Option<
    (Relation, Complex),
>)
    ensures
        r == transition(parent, child, *t),
{
    let found = match (parent, child) {
        (DistType::Z, DistType::Z) => Some((Relation::Carried, t.carried_z)),
        (DistType::Z, DistType::P) => Some((Relation::Excited, t.excited)),
        (DistType::Z, DistType::M) => None,
        (DistType::P, DistType::Z) => Some((Relation::Stored, t.stored_p)),
        (DistType::P, DistType::P) => Some((Relation::Carried, t.carried_t)),
        (DistType::P, DistType::M) => Some((Relation::Refocused, t.refocused_p)),
        (DistType::M, DistType::Z) => Some((Relation::Stored, t.stored_m)),
        (DistType::M, DistType::P) => Some((Relation::Refocused, t.refocused_m)),
        (DistType::M, DistType::M) => Some((Relation::Carried, t.carried_t)),
    };
    match found {
        Some((relation, factor)) => {
            if factor.re == 0 && factor.im == 0 {
                None
            } else {
                Some((relation, factor))
            }
        },
        None => None,
    }
}

/// The offset zero, with the diffusion summary that a new pathway starts from.
pub open spec fn origin(diffusion_on: bool) -> Offset {
    Offset {
        k: Vec3 { x: 0, y: 0, z: 0 },
        dephasing: 0,
        diffusion: if diffusion_on {
            Some(0u128)
        } else {
            None
        },
    }
}

/// A node as it is created: nothing recorded, no signal assigned.
pub open spec fn new_node(dist_type: DistType, mag: Complex, kt: Offset, ancestors: Seq<Edge>) -> Node {
    Node {
        dist_type,
        mag,
        kt_vec: kt,
        recorded: 0,
        latent_signal: 0,
        signal: 0,
        rel_signal: 0,
        ancestors,
    }
}

/// The longitudinal baseline that each repetition starts with: no magnetization yet, no
/// offset, no ancestor. Recovery toward equilibrium fills it during the events.
pub open spec fn fresh_baseline(diffusion_on: bool) -> Node {
    new_node(DistType::Z, Complex { re: 0, im: 0 }, origin(diffusion_on), Seq::empty())
}

/// The node has the given type and spatial-frequency offset.
pub open spec fn same_state(n: Node, dist_type: DistType, k: Vec3) -> bool {
    n.dist_type == dist_type && n.kt_vec.k == k
}

/// The place of the first candidate at or after `from` with the given type and offset, or
/// the number of candidates where there is none.
pub open spec fn find_from(c: Seq<Node>, dist_type: DistType, k: Vec3, from: int) -> int
    decreases c.len() - from,
{
    if from < 0 || from >= c.len() {
        c.len() as int
    } else if same_state(c[from], dist_type, k) {
        from
    } else {
        find_from(c, dist_type, k, from + 1)
    }
}

/// Adds one contribution to the candidates. Where a candidate of the same type and offset
/// exists, the amplitude is added to it and the edge appended to its ancestors; else a new
/// candidate is appended. `None` where the summed amplitude leaves the amplitude range.
pub open spec fn absorb(
    c: Seq<Node>,
    dist_type: DistType,
    kt: Offset,
    amp: Complex,
    edge: Edge,
) -> Option<Seq<Node>> {
    let j = find_from(c, dist_type, kt.k, 0);
    if j < c.len() {
        match Complex::narrow(c[j].mag.re + amp.re, c[j].mag.im + amp.im) {
            Some(sum) => Some(
                c.update(j, Node { mag: sum, ancestors: c[j].ancestors.push(edge), ..c[j] }),
            ),
            None => None,
        }
    } else {
        Some(c.push(new_node(dist_type, amp, kt, seq![edge])))
    }
}

/// Adds what the parent at `index` of population `repetition` contributes to children of
/// one type: nothing where the pulse causes no such transition, else the parent's
/// amplitude times the coefficient, at the parent's offset. `None` where an amplitude
/// leaves the amplitude range.
pub open spec fn contribute(
    c: Seq<Node>,
    parent: Node,
    repetition: usize,
    index: usize,
    child: DistType,
    t: Transitions,
) -> Option<Seq<Node>> {
    match transition(parent.dist_type, child, t) {
        None => Some(c),
        Some((relation, factor)) => {
            let wide = parent.mag.product(factor);
            match Complex::narrow(wide.0, wide.1) {
                None => None,
                Some(amp) => absorb(
                    c,
                    child,
                    parent.kt_vec,
                    amp,
                    Edge { relation, rot_mat_factor: factor, repetition, index },
                ),
            }
        },
    }
}

/// Adds what one parent contributes to longitudinal children, then to `P`, then to `M`.
pub open spec fn mix_parent(
    c: Seq<Node>,
    parent: Node,
    repetition: usize,
    index: usize,
    t: Transitions,
) -> Option<Seq<Node>> {
    match contribute(c, parent, repetition, index, DistType::Z, t) {
        None => None,
        Some(c1) => match contribute(c1, parent, repetition, index, DistType::P, t) {
            None => None,
            Some(c2) => contribute(c2, parent, repetition, index, DistType::M, t),
        },
    }
}

/// The candidates after the pulse has mixed the first `n` parents of the population
/// `prev`, which is population `repetition` of the graph: the fresh baseline first, then
/// the children in the order in which the parents reach them.
pub open spec fn mixed(
    prev: Seq<Node>,
    n: int,
    repetition: usize,
    t: Transitions,
    diffusion_on: bool,
) -> Option<Seq<Node>>
    decreases n,
{
    if n <= 0 {
        Some(seq![fresh_baseline(diffusion_on)])
    } else {
        match mixed(prev, n - 1, repetition, t, diffusion_on) {
            None => None,
            Some(c) => mix_parent(c, prev[n - 1], repetition, (n - 1) as usize, t),
        }
    }
}

/// Tells whether a distribution has the given type and spatial-frequency offset.
pub fn has_state(d: &Distribution, dist_type: DistType, k: &Vec3) -> (r: bool)
    ensures
        r == same_state(d@, dist_type, *k),
{
    d.dist_type == dist_type && d.kt_vec.k == *k
}

/// Adds one contribution to the candidates; returns `false`, and leaves the candidates
/// as they were, where the summed amplitude leaves the amplitude range.
pub fn absorb_into(
    c: &mut Vec<Distribution>,
    dist_type: DistType,
    kt: Offset,
    amp: Complex,
    edge: Edge,
) -> (ok: bool)
    ensures
        match absorb(population_view(old(c)@), dist_type, kt, amp, edge) {
            Some(s) => ok && population_view(final(c)@) == s,
            None => !ok && *final(c) == *old(c),
        },
{
    let n = c.len();
    let ghost before = population_view(c@);
    let mut j: usize = 0;
    while j < n && !has_state(&c[j], dist_type, &kt.k)
        invariant
            n == c@.len(),
            j <= n,
            before == population_view(c@),
            find_from(before, dist_type, kt.k, 0) == find_from(before, dist_type, kt.k, j as int),
        decreases n - j,
    {
        j += 1;
    }
    assert(find_from(before, dist_type, kt.k, 0) == j);
    if j < n {
        let re: i128 = c[j].mag.re as i128 + amp.re as i128;
        let im: i128 = c[j].mag.im as i128 + amp.im as i128;
        match Complex::narrowed(re, im) {
            Some(sum) => {
                c[j].mag = sum;
                c[j].ancestors.push(edge);
                assert(population_view(c@) =~= before.update(
                    j as int,
                    Node {
                        mag: sum,
                        ancestors: before[j as int].ancestors.push(edge),
                        ..before[j as int]
                    },
                ));
                true
            },
            None => false,
        }
    } else {
        let mut ancestors: Vec<Edge> = Vec::new();
        ancestors.push(edge);
        c.push(
            Distribution {
                dist_type,
                mag: amp,
                kt_vec: kt,
                recorded: 0,
                latent_signal: 0,
                signal: 0,
                rel_signal: 0,
                ancestors,
            },
        );
        assert(population_view(c@) =~= before.push(new_node(dist_type, amp, kt, seq![edge])));
        true
    }
}

/// Adds what one parent contributes to children of one type; returns `false` where an
/// amplitude leaves the amplitude range.
pub fn contribute_child(
    c: &mut Vec<Distribution>,
    parent: &Distribution,
    repetition: usize,
    index: usize,
    child: DistType,
    t: &Transitions,
) -> (ok: bool)
    requires
        parent.mag.moderate(),
        t.moderate(),
    ensures
        match contribute(population_view(old(c)@), parent@, repetition, index, child, *t) {
            Some(s) => ok && population_view(final(c)@) == s,
            None => !ok,
        },
{
    match find_transition(parent.dist_type, child, t) {
        None => true,
        Some((relation, factor)) => {
            let wide = parent.mag.times(&factor);
            match Complex::narrowed(wide.0, wide.1) {
                None => false,
                Some(amp) => absorb_into(
                    c,
                    child,
                    parent.kt_vec,
                    amp,
                    Edge { relation, rot_mat_factor: factor, repetition, index },
                ),
            }
        },
    }
}

/// The pulse step: mixes every distribution of the population `prev`, which is population
/// `repetition` of the graph, into the candidates of the next. Returns `None` where an
/// amplitude leaves the amplitude range.
pub fn pulse_step(
    prev: &Vec<Distribution>,
    repetition: usize,
    t: &Transitions,
    diffusion_on: bool,
) -> (r: Option<Vec<Distribution>>)
    requires
        forall|i: int| 0 <= i < prev@.len() ==> (#[trigger] prev@[i]).mag.moderate(),
        t.moderate(),
    ensures
        match mixed(population_view(prev@), prev@.len() as int, repetition, *t, diffusion_on) {
            Some(s) => r.is_some() && population_view(r.unwrap()@) == s,
            None => r.is_none(),
        },
{
    let ghost parents = population_view(prev@);
    let mut c: Vec<Distribution> = Vec::new();
    c.push(
        Distribution {
            dist_type: DistType::Z,
            mag: Complex::zero(),
            kt_vec: Offset {
                k: Vec3 { x: 0, y: 0, z: 0 },
                dephasing: 0,
                diffusion: if diffusion_on {
                    Some(0u128)
                } else {
                    None
                },
            },
            recorded: 0,
            latent_signal: 0,
            signal: 0,
            rel_signal: 0,
            ancestors: Vec::new(),
        },
    );
    assert(population_view(c@) =~= seq![fresh_baseline(diffusion_on)]);
    let n = prev.len();
    let mut i: usize = 0;
    while i < n
        invariant
            n == prev@.len(),
            i <= n,
            parents == population_view(prev@),
            forall|j: int| 0 <= j < prev@.len() ==> (#[trigger] prev@[j]).mag.moderate(),
            t.moderate(),
            mixed(parents, i as int, repetition, *t, diffusion_on) == Some(population_view(c@)),
        decreases n - i,
    {
        let parent = &prev[i];
        assert(parents[i as int] == parent@);
        if !contribute_child(&mut c, parent, repetition, i, DistType::Z, t) {
            proof {
                lemma_mixed_fails(parents, i as int + 1, n as int, repetition, *t, diffusion_on);
            }
            return None;
        }
        if !contribute_child(&mut c, parent, repetition, i, DistType::P, t) {
            proof {
                lemma_mixed_fails(parents, i as int + 1, n as int, repetition, *t, diffusion_on);
            }
            return None;
        }
        if !contribute_child(&mut c, parent, repetition, i, DistType::M, t) {
            proof {
                lemma_mixed_fails(parents, i as int + 1, n as int, repetition, *t, diffusion_on);
            }
            return None;
        }
        i += 1;
    }
    Some(c)
}

/// Once mixing has failed at some parent, it has failed for every longer run of parents.
pub proof fn lemma_mixed_fails(
    prev: Seq<Node>,
    m: int,
    n: int,
    repetition: usize,
    t: Transitions,
    diffusion_on: bool,
)
    requires
        m <= n,
        mixed(prev, m, repetition, t, diffusion_on).is_none(),
    ensures
        mixed(prev, n, repetition, t, diffusion_on).is_none(),
    decreases n - m,
{
    if m < n {
        lemma_mixed_fails(prev, m, n - 1, repetition, t, diffusion_on);
    }
}

/// The node is a longitudinal one without offset.
pub open spec fn is_baseline(n: Node) -> bool {
    n.dist_type == DistType::Z && n.kt_vec.k == (Vec3 { x: 0, y: 0, z: 0 })
}

/// What holds of the candidates throughout a repetition: the baseline comes first, all
/// amplitudes and offsets are within their ranges, and every ancestor edge leads to one
/// of the `count` nodes of population `repetition`.
pub open spec fn candidates_ok(c: Seq<Node>, repetition: usize, count: int) -> bool {
    &&& c.len() >= 1
    &&& is_baseline(c[0])
    &&& population_bounded(c)
    &&& edges_into(c, repetition, count)
}

/// The search ends at a candidate with the state looked for, or behind the last one.
pub proof fn lemma_find_range(c: Seq<Node>, dist_type: DistType, k: Vec3, from: int)
    requires
        0 <= from,
    ensures
        from <= find_from(c, dist_type, k, from) || find_from(c, dist_type, k, from) == c.len(),
        0 <= find_from(c, dist_type, k, from) <= c.len(),
        find_from(c, dist_type, k, from) < c.len() ==> same_state(
            c[find_from(c, dist_type, k, from)],
            dist_type,
            k,
        ),
    decreases c.len() - from,
{
    if from < c.len() && !same_state(c[from], dist_type, k) {
        lemma_find_range(c, dist_type, k, from + 1);
    }
}

/// Absorbing a contribution keeps the candidates in order.
pub proof fn lemma_absorb_ok(
    c: Seq<Node>,
    dist_type: DistType,
    kt: Offset,
    amp: Complex,
    edge: Edge,
    repetition: usize,
    count: int,
)
    requires
        candidates_ok(c, repetition, count),
        amp.in_range(),
        kt.k.within(K_LIMIT),
        edge.repetition == repetition,
        edge.index < count,
    ensures
        match absorb(c, dist_type, kt, amp, edge) {
            Some(s) => candidates_ok(s, repetition, count) && s.len() <= c.len() + 1,
            None => true,
        },
{
    lemma_find_range(c, dist_type, kt.k, 0);
    let j = find_from(c, dist_type, kt.k, 0);
    match absorb(c, dist_type, kt, amp, edge) {
        Some(s) => {
            if j < c.len() {
                assert(node_bounded(c[j]));
                assert forall|i: int| 0 <= i < s.len() implies node_bounded(#[trigger] s[i]) by {
                    if i != j {
                        assert(s[i] == c[i]);
                    }
                }
                assert forall|i: int, a: int|
                    0 <= i < s.len() && 0 <= a < s[i].ancestors.len() implies (
                #[trigger] s[i].ancestors[a]).repetition == repetition && s[i].ancestors[a].index
                    < count by {
                    if i != j {
                        assert(s[i] == c[i]);
                        assert(s[i].ancestors[a] == c[i].ancestors[a]);
                    } else if a < c[j].ancestors.len() {
                        assert(s[i].ancestors[a] == c[j].ancestors[a]);
                    }
                }
            } else {
                assert forall|i: int| 0 <= i < s.len() implies node_bounded(#[trigger] s[i]) by {
                    if i < c.len() {
                        assert(s[i] == c[i]);
                    }
                }
                assert forall|i: int, a: int|
                    0 <= i < s.len() && 0 <= a < s[i].ancestors.len() implies (
                #[trigger] s[i].ancestors[a]).repetition == repetition && s[i].ancestors[a].index
                    < count by {
                    if i < c.len() {
                        assert(s[i] == c[i]);
                        assert(s[i].ancestors[a] == c[i].ancestors[a]);
                    }
                }
            }
        },
        None => {},
    }
}

/// A contribution keeps the candidates in order.
pub proof fn lemma_contribute_ok(
    c: Seq<Node>,
    parent: Node,
    repetition: usize,
    index: usize,
    child: DistType,
    t: Transitions,
    count: int,
)
    requires
        candidates_ok(c, repetition, count),
        node_bounded(parent),
        index < count,
    ensures
        match contribute(c, parent, repetition, index, child, t) {
            Some(s) => candidates_ok(s, repetition, count) && s.len() <= c.len() + 1,
            None => true,
        },
{
    match transition(parent.dist_type, child, t) {
        None => {},
        Some((relation, factor)) => {
            let wide = parent.mag.product(factor);
            match Complex::narrow(wide.0, wide.1) {
                None => {},
                Some(amp) => {
                    lemma_absorb_ok(
                        c,
                        child,
                        parent.kt_vec,
                        amp,
                        Edge { relation, rot_mat_factor: factor, repetition, index },
                        repetition,
                        count,
                    );
                },
            }
        },
    }
}

/// The candidates that a pulse produces are in order: the baseline comes first, all
/// amplitudes and offsets are within their ranges, every ancestor edge leads to a node of
/// the population that was mixed, and each parent has added at most three candidates.
pub proof fn lemma_mixed_ok(
    prev: Seq<Node>,
    n: int,
    repetition: usize,
    t: Transitions,
    diffusion_on: bool,
)
    requires
        population_bounded(prev),
        0 <= n <= prev.len(),
    ensures
        match mixed(prev, n, repetition, t, diffusion_on) {
            Some(c) => candidates_ok(c, repetition, prev.len() as int) && c.len() <= 1 + 3 * n,
            None => true,
        },
    decreases n,
{
    if n > 0 {
        lemma_mixed_ok(prev, n - 1, repetition, t, diffusion_on);
        match mixed(prev, n - 1, repetition, t, diffusion_on) {
            None => {},
            Some(c) => {
                let parent = prev[n - 1];
                let index = (n - 1) as usize;
                let count = prev.len() as int;
                assert(node_bounded(parent));
                lemma_contribute_ok(c, parent, repetition, index, DistType::Z, t, count);
                match contribute(c, parent, repetition, index, DistType::Z, t) {
                    None => {},
                    Some(c1) => {
                        lemma_contribute_ok(c1, parent, repetition, index, DistType::P, t, count);
                        match contribute(c1, parent, repetition, index, DistType::P, t) {
                            None => {},
                            Some(c2) => {
                                lemma_contribute_ok(
                                    c2,
                                    parent,
                                    repetition,
                                    index,
                                    DistType::M,
                                    t,
                                    count,
                                );
                            },
                        }
                    },
                }
            },
        }
    } else {
        let c = seq![fresh_baseline(diffusion_on)];
        assert(c[0] == fresh_baseline(diffusion_on));
        assert(node_bounded(c[0]));
    }
}

/// A pulse that turns all magnetization by a right angle leaves nothing longitudinal of
/// longitudinal magnetization and makes all of it transverse: the coefficient from
/// longitudinal to longitudinal is zero, and the one from longitudinal to `P` is `-i`
/// times the phase factor, which has the magnitude of the phase factor.
pub proof fn lemma_ideal_excitation(phase: crate::tables::Rotation)
    requires
        phase.unit(),
    ensures
        transitions(Mixing { sin: ONE, cos: 0, phase }).carried_z.is_zero(),
        transitions(Mixing { sin: ONE, cos: 0, phase }).excited == (Complex {
            re: phase.sin,
            im: (-phase.cos) as i64,
        }),
        transition(DistType::Z, DistType::Z, transitions(Mixing { sin: ONE, cos: 0, phase }))
            .is_none(),
        transition(DistType::Z, DistType::M, transitions(Mixing { sin: ONE, cos: 0, phase }))
            .is_none(),
{
    let s = phase.sin as int;
    let c = phase.cos as int;
    assert(s * ONE - (-c) * 0 == s * 0x4000_0000) by (nonlinear_arith)
        requires
            ONE == 0x4000_0000,
    ;
    assert(s * 0 + (-c) * ONE == (-c) * 0x4000_0000) by (nonlinear_arith)
        requires
            ONE == 0x4000_0000,
    ;
}

/// The sum of what the first `n` of the edges carry: for each edge the amplitude of the
/// ancestor it leads to, which is a node of `prev`, times the factor of the edge.
pub open spec fn edge_sum(prev: Seq<Node>, edges: Seq<Edge>, n: int) -> (int, int)
    decreases n,
{
    if n <= 0 {
        (0, 0)
    } else {
        let s = edge_sum(prev, edges, n - 1);
        let c = prev[edges[n - 1].index as int].mag.product(edges[n - 1].rot_mat_factor);
        (s.0 + c.0, s.1 + c.1)
    }
}

/// The ancestor edges of the node explain it: its amplitude is the sum of what its edges
/// carry, and each edge leads to a parent of the same offset and holds the relation and
/// the coefficient of the transition from the type of that parent to the type of the node.
pub open spec fn edges_explain(prev: Seq<Node>, node: Node, t: Transitions) -> bool {
    &&& (node.mag.re as int, node.mag.im as int) == edge_sum(
        prev,
        node.ancestors,
        node.ancestors.len() as int,
    )
    &&& forall|a: int|
        0 <= a < node.ancestors.len() ==> {
            let e = #[trigger] node.ancestors[a];
            &&& transition(prev[e.index as int].dist_type, node.dist_type, t) == Some(
                (e.relation, e.rot_mat_factor),
            )
            &&& prev[e.index as int].kt_vec.k == node.kt_vec.k
        }
}

/// The sum over the first `n` edges does not depend on the edges behind them.
pub proof fn lemma_edge_sum_prefix(prev: Seq<Node>, a: Seq<Edge>, b: Seq<Edge>, n: int)
    requires
        n <= a.len(),
        n <= b.len(),
        forall|k: int| 0 <= k < n ==> a[k] == b[k],
    ensures
        edge_sum(prev, a, n) == edge_sum(prev, b, n),
    decreases n,
{
    if n > 0 {
        lemma_edge_sum_prefix(prev, a, b, n - 1);
    }
}

/// Absorbing what a parent contributes keeps every candidate explained by its edges.
pub proof fn lemma_contribute_explained(
    c: Seq<Node>,
    prev: Seq<Node>,
    repetition: usize,
    index: usize,
    child: DistType,
    t: Transitions,
)
    requires
        index < prev.len(),
        forall|i: int| 0 <= i < c.len() ==> edges_explain(prev, #[trigger] c[i], t),
    ensures
        match contribute(c, prev[index as int], repetition, index, child, t) {
            Some(s) => forall|i: int| 0 <= i < s.len() ==> edges_explain(prev, #[trigger] s[i], t),
            None => true,
        },
{
    let parent = prev[index as int];
    match transition(parent.dist_type, child, t) {
        None => {},
        Some((relation, factor)) => {
            let wide = parent.mag.product(factor);
            match Complex::narrow(wide.0, wide.1) {
                None => {},
                Some(amp) => {
                    let edge = Edge { relation, rot_mat_factor: factor, repetition, index };
                    lemma_find_range(c, child, parent.kt_vec.k, 0);
                    let j = find_from(c, child, parent.kt_vec.k, 0);
                    match absorb(c, child, parent.kt_vec, amp, edge) {
                        None => {},
                        Some(s) => {
                            assert forall|i: int| 0 <= i < s.len() implies edges_explain(
                                prev,
                                #[trigger] s[i],
                                t,
                            ) by {
                                if j < c.len() && i == j {
                                    let old_edges = c[j].ancestors;
                                    let new_edges = s[j].ancestors;
                                    assert(edges_explain(prev, c[j], t));
                                    assert(new_edges == old_edges.push(edge));
                                    lemma_edge_sum_prefix(
                                        prev,
                                        old_edges,
                                        new_edges,
                                        old_edges.len() as int,
                                    );
                                    assert(new_edges[old_edges.len() as int] == edge);
                                    assert forall|a: int| 0 <= a < new_edges.len() implies {
                                        let e = #[trigger] new_edges[a];
                                        &&& transition(
                                            prev[e.index as int].dist_type,
                                            s[j].dist_type,
                                            t,
                                        ) == Some((e.relation, e.rot_mat_factor))
                                        &&& prev[e.index as int].kt_vec.k == s[j].kt_vec.k
                                    } by {
                                        if a < old_edges.len() {
                                            assert(new_edges[a] == old_edges[a]);
                                        }
                                    }
                                } else if i < c.len() {
                                    assert(s[i] == c[i]);
                                    assert(edges_explain(prev, c[i], t));
                                } else {
                                    let new_edges = s[i].ancestors;
                                    assert(new_edges == seq![edge]);
                                    assert(new_edges[0] == edge);
                                    assert(edge_sum(prev, new_edges, 0) == (0int, 0int));
                                }
                            }
                        },
                    }
                },
            }
        },
    }
}

/// After the pulse step every candidate is explained by its ancestor edges: its
/// amplitude is the sum, over its edges, of the amplitude of the parent times the factor
/// of the edge, and each edge holds the relation and the coefficient of the transition
/// from the type of the parent to the type of the candidate, at the offset of the parent.
pub proof fn lemma_mixed_explained(
    prev: Seq<Node>,
    n: int,
    repetition: usize,
    t: Transitions,
    diffusion_on: bool,
)
    requires
        0 <= n <= prev.len() <= usize::MAX,
    ensures
        match mixed(prev, n, repetition, t, diffusion_on) {
            Some(c) => forall|i: int| 0 <= i < c.len() ==> edges_explain(prev, #[trigger] c[i], t),
            None => true,
        },
    decreases n,
{
    if n > 0 {
        lemma_mixed_explained(prev, n - 1, repetition, t, diffusion_on);
        match mixed(prev, n - 1, repetition, t, diffusion_on) {
            None => {},
            Some(c) => {
                let index = (n - 1) as usize;
                lemma_contribute_explained(c, prev, repetition, index, DistType::Z, t);
                match contribute(c, prev[n - 1], repetition, index, DistType::Z, t) {
                    None => {},
                    Some(c1) => {
                        lemma_contribute_explained(c1, prev, repetition, index, DistType::P, t);
                        match contribute(c1, prev[n - 1], repetition, index, DistType::P, t) {
                            None => {},
                            Some(c2) => {
                                lemma_contribute_explained(
                                    c2,
                                    prev,
                                    repetition,
                                    index,
                                    DistType::M,
                                    t,
                                );
                            },
                        }
                    },
                }
            },
        }
    } else {
        let c = seq![fresh_baseline(diffusion_on)];
        assert(c[0] == fresh_baseline(diffusion_on));
        assert(edges_explain(prev, c[0], t));
    }
}

} // verus!
