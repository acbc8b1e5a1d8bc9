//! The pruning step: which candidates of a repetition survive, and in what order.
use crate::graph::{population_view, Distribution, Edge, Node};
use vstd::prelude::*;

verus! {

/// The amplitude of the node has at least the magnitude `min`.
pub open spec fn eligible(n: Node, min: i64) -> bool {
    n.mag.norm_sqr() >= min * min
}

/// Candidate `j` ranks before candidate `i`: its amplitude is larger in magnitude, or as
/// large and it was created earlier.
pub open spec fn beats(c: Seq<Node>, j: int, i: int) -> bool {
    c[j].mag.norm_sqr() > c[i].mag.norm_sqr() || (c[j].mag.norm_sqr() == c[i].mag.norm_sqr() && j
        < i)
}

/// The candidate that ranks first among those of the first `n` that are eligible and not
/// yet taken, or -1 where there is none.
pub open spec fn best(c: Seq<Node>, min: i64, taken: Seq<int>, n: int) -> int
    decreases n,
{
    if n <= 0 {
        -1
    } else {
        let b = best(c, min, taken, n - 1);
        if eligible(c[n - 1], min) && !taken.contains(n - 1) && (b < 0 || c[n - 1].mag.norm_sqr()
            > c[b].mag.norm_sqr()) {
            n - 1
        } else {
            b
        }
    }
}

/// The places of the candidates that survive where at most `count` may: each in turn the
/// one that ranks first among the eligible ones not yet taken.
pub open spec fn selection(c: Seq<Node>, min: i64, count: int) -> Seq<int>
    decreases count,
{
    if count <= 0 {
        Seq::empty()
    } else {
        let s = selection(c, min, count - 1);
        let b = best(c, min, s, c.len() as int);
        if b < 0 {
            s
        } else {
            s.push(b)
        }
    }
}

/// The survivors of the candidates `c`: at most `max` of them, those that rank first
/// among the ones whose amplitude has at least the magnitude `min`, in the order of
/// their rank.
pub open spec fn pruned(c: Seq<Node>, min: i64, max: usize) -> Seq<Node> {
    let s = selection(c, min, max as int);
    Seq::new(s.len(), |i: int| c[s[i]])
}

/// The best candidate is one of the first `n`, eligible and not taken, and no other such
/// candidate ranks before it.
pub proof fn lemma_best(c: Seq<Node>, min: i64, taken: Seq<int>, n: int)
    requires
        0 <= n <= c.len(),
    ensures
        -1 <= best(c, min, taken, n) < n,
        best(c, min, taken, n) >= 0 ==> eligible(c[best(c, min, taken, n)], min)
            && !taken.contains(best(c, min, taken, n)),
        forall|i: int|
            0 <= i < n && eligible(#[trigger] c[i], min) && !taken.contains(i) ==> best(
                c,
                min,
                taken,
                n,
            ) >= 0 && (i == best(c, min, taken, n) || beats(c, best(c, min, taken, n), i)),
    decreases n,
{
    if n > 0 {
        lemma_best(c, min, taken, n - 1);
        let b0 = best(c, min, taken, n - 1);
        let b = best(c, min, taken, n);
        assert forall|i: int|
            0 <= i < n && eligible(#[trigger] c[i], min) && !taken.contains(i) implies b >= 0 && (
            i == b || beats(c, b, i)) by {
            if i < n - 1 {
                assert(b0 >= 0 && (i == b0 || beats(c, b0, i)));
            }
        }
    }
}

/// The selection holds at most `count` places, all of them distinct places of eligible
/// candidates, in the order of their rank; and while it holds fewer than `count`, it
/// holds every eligible candidate.
pub proof fn lemma_selection(c: Seq<Node>, min: i64, count: int)
    requires
        0 <= count,
    ensures
        selection(c, min, count).len() <= count,
        forall|k: int|
            0 <= k < selection(c, min, count).len() ==> 0 <= #[trigger] selection(
                c,
                min,
                count,
            )[k] < c.len() && eligible(c[selection(c, min, count)[k]], min),
        forall|k: int, l: int|
            0 <= k < l < selection(c, min, count).len() ==> beats(
                c,
                #[trigger] selection(c, min, count)[k],
                #[trigger] selection(c, min, count)[l],
            ),
        forall|i: int|
            0 <= i < c.len() && eligible(#[trigger] c[i], min) && !selection(
                c,
                min,
                count,
            ).contains(i) ==> selection(c, min, count).len() == count && (count > 0 ==> beats(
                c,
                selection(c, min, count).last(),
                i,
            )),
    decreases count,
{
    let s = selection(c, min, count);
    if count > 0 {
        let s0 = selection(c, min, count - 1);
        lemma_selection(c, min, count - 1);
        lemma_best(c, min, s0, c.len() as int);
        let b = best(c, min, s0, c.len() as int);
        if b >= 0 {
            assert(s == s0.push(b));
            assert forall|k: int, l: int| 0 <= k < l < s.len() implies beats(
                c,
                #[trigger] s[k],
                #[trigger] s[l],
            ) by {
                if l == s0.len() {
                    // s[k] was chosen while b was still eligible and not taken
                    assert(s0[k] == s[k]);
                    lemma_ranked_before(c, min, count - 1, k, b);
                } else {
                    assert(s0[k] == s[k] && s0[l] == s[l]);
                }
            }
            assert forall|i: int|
                0 <= i < c.len() && eligible(#[trigger] c[i], min) && !(s.contains(i)) implies s.len()
                == count && (count > 0 ==> beats(c, s.last(), i)) by {
                assert(s[s0.len() as int] == b);
                if s0.contains(i) {
                    let k = choose|k: int| 0 <= k < s0.len() && s0[k] == i;
                    assert(s[k] == i);
                }
                assert(!s0.contains(i));
                assert(i == b || beats(c, b, i));
                assert(s0.len() == count - 1) by {
                    if count - 1 > 0 {
                        assert(!s0.contains(b));
                    }
                }
            }
        } else {
            assert(s == s0);
            assert forall|i: int|
                0 <= i < c.len() && eligible(#[trigger] c[i], min) && !(s.contains(i)) implies s.len()
                == count && (count > 0 ==> beats(c, s.last(), i)) by {
                assert(false);
            }
        }
    } else {
        assert(s.len() == 0);
    }
}

/// Every place of the selection ranks before every eligible candidate that the selection
/// does not hold.
pub proof fn lemma_ranked_before(c: Seq<Node>, min: i64, count: int, k: int, i: int)
    requires
        0 <= k < selection(c, min, count).len(),
        0 <= i < c.len(),
        eligible(c[i], min),
        !selection(c, min, count).contains(i),
    ensures
        beats(c, selection(c, min, count)[k], i),
    decreases count,
{
    if count > 0 {
        let s0 = selection(c, min, count - 1);
        let b = best(c, min, s0, c.len() as int);
        lemma_best(c, min, s0, c.len() as int);
        let s = selection(c, min, count);
        if b >= 0 {
            assert(s == s0.push(b));
            assert(!s0.contains(i)) by {
                if s0.contains(i) {
                    let j = choose|j: int| 0 <= j < s0.len() && s0[j] == i;
                    assert(s[j] == i);
                }
            }
            assert(i != b) by {
                assert(s[s0.len() as int] == b);
            }
            if k < s0.len() {
                assert(s[k] == s0[k]);
                lemma_ranked_before(c, min, count - 1, k, i);
            } else {
                assert(s[k] == b);
                assert(beats(c, b, i));
            }
        } else {
            lemma_ranked_before(c, min, count - 1, k, i);
        }
    }
}

/// Once no candidate is left to take, allowing more survivors changes nothing.
pub proof fn lemma_selection_stops(c: Seq<Node>, min: i64, k: int, count: int)
    requires
        0 <= k <= count,
        best(c, min, selection(c, min, k), c.len() as int) < 0,
    ensures
        selection(c, min, count) == selection(c, min, k),
    decreases count - k,
{
    if k < count {
        lemma_selection_stops(c, min, k, count - 1);
    }
}

/// Copies a list of edges.
pub fn copy_edges(edges: &Vec<Edge>) -> (r: Vec<Edge>)
    ensures
        r@ == edges@,
{
    let mut r: Vec<Edge> = Vec::new();
    let mut i: usize = 0;
    while i < edges.len()
        invariant
            i <= edges@.len(),
            r@ == edges@.subrange(0, i as int),
        decreases edges@.len() - i,
    {
        r.push(edges[i]);
        assert(r@ =~= edges@.subrange(0, i as int + 1));
        i += 1;
    }
    assert(r@ =~= edges@);
    r
}

/// Copies a distribution.
pub fn copy_distribution(d: &Distribution) -> (r: Distribution)
    ensures
        r@ == d@,
{
    Distribution {
        dist_type: d.dist_type,
        mag: d.mag,
        kt_vec: d.kt_vec,
        recorded: d.recorded,
        latent_signal: d.latent_signal,
        signal: d.signal,
        rel_signal: d.rel_signal,
        ancestors: copy_edges(&d.ancestors),
    }
}

/// Finds the candidate that ranks first among the eligible ones not yet taken; returns
/// the number of candidates where there is none.
fn find_best(c: &Vec<Distribution>, min: i64, taken: &Vec<bool>, Ghost(sel): Ghost<Seq<int>>) -> (b:
    usize)
    requires
        min >= 0,
        taken@.len() == c@.len(),
        forall|i: int| 0 <= i < c@.len() ==> (#[trigger] taken@[i] <==> sel.contains(i)),
    ensures
        b <= c@.len(),
        b < c@.len() ==> best(population_view(c@), min, sel, c@.len() as int) == b,
        b == c@.len() ==> best(population_view(c@), min, sel, c@.len() as int) == -1,
{
    let n = c.len();
    let ghost v = population_view(c@);
    assert((min as u128) * (min as u128) <= 0x4000_0000_0000_0000_0000_0000_0000_0000)
        by (nonlinear_arith)
        requires
            0 <= min <= 0x7FFF_FFFF_FFFF_FFFF,
    ;
    let floor: u128 = (min as u128) * (min as u128);
    let mut b: usize = n;
    let mut top: u128 = 0;
    let mut i: usize = 0;
    while i < n
        invariant
            n == c@.len(),
            taken@.len() == n,
            v == population_view(c@),
            floor == min * min,
            i <= n,
            b <= n,
            b < n ==> b < i && best(v, min, sel, i as int) == b && top == v[b as int].mag.norm_sqr(),
            b == n ==> best(v, min, sel, i as int) == -1,
            forall|j: int| 0 <= j < c@.len() ==> (#[trigger] taken@[j] <==> sel.contains(j)),
        decreases n - i,
    {
        let norm = c[i].mag.squared_norm();
        assert(v[i as int] == c@[i as int]@);
        if norm >= floor && !taken[i] && (b == n || norm > top) {
            b = i;
            top = norm;
        }
        i += 1;
    }
    b
}

/// The pruning step: keeps at most `max` candidates, those that rank first among the ones
/// whose amplitude has at least the magnitude `min`, in the order of their rank.
pub fn prune(c: &Vec<Distribution>, min: i64, max: usize) -> (r: Vec<Distribution>)
    requires
        min >= 0,
    ensures
        population_view(r@) == pruned(population_view(c@), min, max),
{
    let n = c.len();
    let ghost v = population_view(c@);
    let mut taken: Vec<bool> = Vec::new();
    let mut i: usize = 0;
    while i < n
        invariant
            i <= n,
            taken@.len() == i,
            forall|j: int| 0 <= j < i ==> !(#[trigger] taken@[j]),
        decreases n - i,
    {
        taken.push(false);
        i += 1;
    }
    let mut r: Vec<Distribution> = Vec::new();
    let mut k: usize = 0;
    let ghost mut sel: Seq<int> = Seq::empty();
    assert(population_view(r@) =~= Seq::new(sel.len(), |i: int| v[sel[i]]));
    while k < max
        invariant
            n == c@.len(),
            v == population_view(c@),
            min >= 0,
            k <= max,
            taken@.len() == n,
            sel == selection(v, min, k as int),
            forall|j: int| 0 <= j < n ==> (#[trigger] taken@[j] <==> sel.contains(j)),
            population_view(r@) == Seq::new(sel.len(), |i: int| v[sel[i]]),
        decreases max - k,
    {
        let b = find_best(c, min, &taken, Ghost(sel));
        if b == n {
            proof {
                lemma_selection_stops(v, min, k as int, max as int);
            }
            return r;
        }
        let ghost next = sel.push(b as int);
        assert(selection(v, min, k as int + 1) == next);
        taken.set(b, true);
        let ghost kept = population_view(r@);
        r.push(copy_distribution(&c[b]));
        proof {
            assert(population_view(r@) =~= kept.push(v[b as int]));
            assert forall|j: int| 0 <= j < n implies (#[trigger] taken@[j] <==> next.contains(j)) by {
                if j == b {
                    assert(next[sel.len() as int] == j);
                } else if sel.contains(j) {
                    let w = choose|w: int| 0 <= w < sel.len() && sel[w] == j;
                    assert(next[w] == j);
                } else if next.contains(j) {
                    let w = choose|w: int| 0 <= w < next.len() && next[w] == j;
                    assert(sel[w] == j);
                }
            }
            assert(population_view(r@) =~= Seq::new(next.len(), |i: int| v[next[i]])) by {
                assert forall|i: int| 0 <= i < next.len() implies population_view(r@)[i]
                    == v[next[i]] by {
                    if i < sel.len() {
                        assert(next[i] == sel[i]);
                        assert(kept[i] == v[sel[i]]);
                    }
                }
            }
            sel = next;
        }
        k += 1;
    }
    r
}

/// The rank is a strict total order: of two different candidates exactly one ranks
/// before the other, whatever their amplitudes, and the rank is transitive. Which
/// candidates survive, and in what order, therefore never depends on chance.
pub proof fn lemma_rank_total(c: Seq<Node>, i: int, j: int, k: int)
    ensures
        !beats(c, i, i),
        i != j ==> (beats(c, i, j) <==> !beats(c, j, i)),
        beats(c, i, j) && beats(c, j, k) ==> beats(c, i, k),
{
}

/// Every survivor has an amplitude of magnitude at least `min`, and there are at most
/// `max` survivors.
pub proof fn lemma_pruned_bounds(c: Seq<Node>, min: i64, max: usize)
    requires
        min >= 0,
    ensures
        pruned(c, min, max).len() <= max,
        forall|i: int|
            0 <= i < pruned(c, min, max).len() ==> (#[trigger] pruned(c, min, max)[i]).mag.norm()
                >= min,
{
    let s = selection(c, min, max as int);
    let r = pruned(c, min, max);
    lemma_selection(c, min, max as int);
    assert forall|i: int| 0 <= i < r.len() implies (#[trigger] r[i]).mag.norm() >= min by {
        assert(0 <= s[i] < c.len());
        assert(r[i] == c[s[i]]);
        crate::fixed::lemma_norm_at_least(r[i].mag, min as nat);
    }
}

} // verus!
