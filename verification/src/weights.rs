//! What an ant's draw is made of: the pheromone of a node and its steps,
//! the desirability of a step, the weights of the nodes in a draw, and the
//! roulette wheel that turns a draw into a node.
//!
//! All numbers are integers. Desirability and the pheromone's share in a
//! weight are fractions of the best value in reach, so that a weight never
//! leaves the range of a `u64`; a node that may be drawn always weighs at
//! least one.

use vstd::prelude::*;
use crate::data::Point;
use crate::data::lemma_distance_bound;
use crate::fraction::FRACTION_ONE;
use crate::fraction::fraction;
use crate::fraction::fraction_power;
use crate::fraction::lemma_fraction_power_bound;
use crate::fraction::magnitude;
use crate::fraction::spec_fraction;
use crate::fraction::spec_fraction_power;
use crate::fraction::spec_magnitude;
use crate::graph::is_full_index;

verus! {


/// The neutral pheromone: a pheromone `p` stands for `p / PHEROMONE_ONE`.
pub const PHEROMONE_ONE: u64 = 1_000_000;

/// The largest pheromone that a node can carry.
pub const PHEROMONE_CAP: u64 = 1_000_000_000_000;

/// A pheromone lies between the neutral value and the cap.
pub open spec fn is_pheromone(p: u64) -> bool {
    PHEROMONE_ONE <= p <= PHEROMONE_CAP
}

/// The pheromone of a node after an ant has stepped on it: 1.06 times the
/// old one, at most the cap.
pub open spec fn spec_boosted(p: u64) -> u64 {
    if p * 106 / 100 >= PHEROMONE_CAP {
        PHEROMONE_CAP
    } else {
        (p * 106 / 100) as u64
    }
}

/// The pheromone of a node after evaporation: the neutral value stays, any
/// other is divided by 1.02 and does not fall below the neutral value.
pub open spec fn spec_evaporated(p: u64) -> u64 {
    if p == PHEROMONE_ONE || p * 100 / 102 <= PHEROMONE_ONE {
        PHEROMONE_ONE
    } else {
        (p * 100 / 102) as u64
    }
}

/// The pheromone of a node on the best route after reinforcement: the
/// fifth power of 1.06 times the old one, at most the cap.
pub open spec fn spec_reinforced(p: u64) -> u64 {
    if p * 13382255776 / 10000000000 >= PHEROMONE_CAP {
        PHEROMONE_CAP
    } else {
        (p * 13382255776 / 10000000000) as u64
    }
}

/// Boosts a pheromone for one step of an ant.
pub fn boosted(p: u64) -> (r: u64)
    ensures
        r == spec_boosted(p),
        p >= PHEROMONE_ONE ==> is_pheromone(r),
{
    let grown: u128 = p as u128 * 106 / 100;
    if grown >= PHEROMONE_CAP as u128 {
        PHEROMONE_CAP
    } else {
        grown as u64
    }
}

/// Lets a pheromone evaporate once.
pub fn evaporated(p: u64) -> (r: u64)
    ensures
        r == spec_evaporated(p),
        p <= PHEROMONE_CAP ==> is_pheromone(r),
{
    let shrunk: u128 = p as u128 * 100 / 102;
    if p == PHEROMONE_ONE || shrunk <= PHEROMONE_ONE as u128 {
        PHEROMONE_ONE
    } else {
        shrunk as u64
    }
}

/// Reinforces a pheromone of a node on the best route.
pub fn reinforced(p: u64) -> (r: u64)
    ensures
        r == spec_reinforced(p),
        p >= PHEROMONE_ONE ==> is_pheromone(r),
{
    let grown: u128 = p as u128 * 13382255776 / 10000000000;
    if grown >= PHEROMONE_CAP as u128 {
        PHEROMONE_CAP
    } else {
        grown as u64
    }
}

/// The length of the way from `u` over `v` to the destination `d`.
pub open spec fn through(pts: Seq<Point>, u: int, v: int, d: int) -> nat {
    pts[u].spec_distance_to(pts[v]) + pts[v].spec_distance_to(pts[d])
}

/// An ant at `u` may one day step to `v`: it is a node, not `u` itself and
/// not the destination.
pub open spec fn is_eligible(n: nat, u: int, v: int, d: int) -> bool {
    0 <= v < n && v != u && v != d
}

/// `m` is the shortest way from `u` over a node to the destination.
pub open spec fn is_least_through(pts: Seq<Point>, u: int, d: int, m: nat) -> bool {
    &&& exists|v: int| #[trigger] is_eligible(pts.len(), u, v, d) && through(pts, u, v, d) == m
    &&& forall|v: int| #[trigger] is_eligible(pts.len(), u, v, d) ==> through(pts, u, v, d) >= m
}

/// `m` is the longest way from `u` over a node to the destination.
pub open spec fn is_greatest_through(pts: Seq<Point>, u: int, d: int, m: nat) -> bool {
    &&& exists|v: int| #[trigger] is_eligible(pts.len(), u, v, d) && through(pts, u, v, d) == m
    &&& forall|v: int| #[trigger] is_eligible(pts.len(), u, v, d) ==> through(pts, u, v, d) <= m
}

/// The shortest way from `u` over a node to the destination.
pub open spec fn least_through(pts: Seq<Point>, u: int, d: int) -> nat {
    choose|m: nat| is_least_through(pts, u, d, m)
}

/// The longest way from `u` over a node to the destination.
pub open spec fn greatest_through(pts: Seq<Point>, u: int, d: int) -> nat {
    choose|m: nat| is_greatest_through(pts, u, d, m)
}

/// The desirability of the step from `u` to `v`, as a fraction.
///
/// For an exponent `alpha` that is not negative it is the power `alpha` of
/// the shortest way over a node divided by the way over `v`: the reciprocal
/// of the way over `v`, raised to `alpha`, as a share of the largest such
/// value. For a negative exponent it is the power `-alpha` of the way over
/// `v` divided by the longest way. A node that cannot be stepped to has
/// desirability zero.
pub open spec fn spec_desirability(pts: Seq<Point>, d: int, alpha: i32, u: int, v: int) -> nat {
    if !is_eligible(pts.len(), u, v, d) {
        0
    } else if alpha >= 0 {
        spec_fraction_power(
            spec_fraction(least_through(pts, u, d), through(pts, u, v, d)),
            spec_magnitude(alpha),
        )
    } else {
        spec_fraction_power(
            spec_fraction(through(pts, u, v, d), greatest_through(pts, u, d)),
            spec_magnitude(alpha),
        )
    }
}

/// `table` holds the desirability of every step.
pub open spec fn is_desirability_table(table: Seq<Vec<u64>>, pts: Seq<Point>, d: int, alpha: i32) -> bool {
    &&& table.len() == pts.len()
    &&& forall|u: int| 0 <= u < table.len() ==> (#[trigger] table[u])@.len() == pts.len()
    &&& forall|u: int, v: int|
        0 <= u < pts.len() && 0 <= v < pts.len() ==> #[trigger] table[u]@[v] == spec_desirability(
            pts,
            d,
            alpha,
            u,
            v,
        )
}

/// The shortest way over a node is unique.
pub proof fn lemma_least_through_is(pts: Seq<Point>, u: int, d: int, m: nat)
    requires
        is_least_through(pts, u, d, m),
    ensures
        least_through(pts, u, d) == m,
{
    let other = least_through(pts, u, d);
    assert(is_least_through(pts, u, d, other));
    let v1 = choose|v: int| #[trigger] is_eligible(pts.len(), u, v, d) && through(pts, u, v, d) == m;
    let v2 = choose|v: int| #[trigger]
        is_eligible(pts.len(), u, v, d) && through(pts, u, v, d) == other;
    assert(through(pts, u, v1, d) >= other);
    assert(through(pts, u, v2, d) >= m);
}

/// The longest way over a node is unique.
pub proof fn lemma_greatest_through_is(pts: Seq<Point>, u: int, d: int, m: nat)
    requires
        is_greatest_through(pts, u, d, m),
    ensures
        greatest_through(pts, u, d) == m,
{
    let other = greatest_through(pts, u, d);
    assert(is_greatest_through(pts, u, d, other));
    let v1 = choose|v: int| #[trigger] is_eligible(pts.len(), u, v, d) && through(pts, u, v, d) == m;
    let v2 = choose|v: int| #[trigger]
        is_eligible(pts.len(), u, v, d) && through(pts, u, v, d) == other;
    assert(through(pts, u, v1, d) <= other);
    assert(through(pts, u, v2, d) <= m);
}

/// Finds the shortest and the longest way from `u` over a node to `d`, and
/// tells whether there is a node to go over at all.
fn through_range(rows: &Vec<Vec<u64>>, u: usize, d: usize, Ghost(pts): Ghost<Seq<Point>>) -> (r: (
    bool,
    u64,
    u64,
))
    requires
        is_full_index(rows@, pts),
        u < pts.len(),
        d < pts.len(),
    ensures
        r.0 == (exists|v: int| is_eligible(pts.len(), u as int, v, d as int)),
        r.0 ==> is_least_through(pts, u as int, d as int, r.1 as nat),
        r.0 ==> is_greatest_through(pts, u as int, d as int, r.2 as nat),
{
    let n = rows.len();
    let mut found = false;
    let mut lo: u64 = 0;
    let mut hi: u64 = 0;
    let ghost mut at_lo: int = 0;
    let ghost mut at_hi: int = 0;
    let mut v: usize = 0;
    while v < n
        invariant
            v <= n,
            n == pts.len(),
            is_full_index(rows@, pts),
            u < n,
            d < n,
            !found ==> forall|w: int| 0 <= w < v ==> !is_eligible(pts.len(), u as int, w, d as int),
            found ==> {
                &&& is_eligible(pts.len(), u as int, at_lo, d as int)
                &&& through(pts, u as int, at_lo, d as int) == lo
                &&& is_eligible(pts.len(), u as int, at_hi, d as int)
                &&& through(pts, u as int, at_hi, d as int) == hi
                &&& forall|w: int| #[trigger]
                    is_eligible(pts.len(), u as int, w, d as int) && w < v ==> lo <= through(
                        pts,
                        u as int,
                        w,
                        d as int,
                    ) <= hi
            },
        decreases n - v,
    {
        if v != u && v != d {
            proof {
                lemma_distance_bound(pts[u as int], pts[v as int]);
                lemma_distance_bound(pts[v as int], pts[d as int]);
            }
            let x: u64 = rows[u][v] + rows[v][d];
            assert(x == through(pts, u as int, v as int, d as int));
            assert(is_eligible(pts.len(), u as int, v as int, d as int));
            if !found || x < lo {
                lo = x;
                proof {
                    at_lo = v as int;
                }
            }
            if !found || x > hi {
                hi = x;
                proof {
                    at_hi = v as int;
                }
            }
            found = true;
        }
        v += 1;
    }
    proof {
        if found {
            assert(is_eligible(pts.len(), u as int, at_lo, d as int) && through(
                pts,
                u as int,
                at_lo,
                d as int,
            ) == lo);
            assert(is_eligible(pts.len(), u as int, at_hi, d as int) && through(
                pts,
                u as int,
                at_hi,
                d as int,
            ) == hi);
        }
    }
    (found, lo, hi)
}

/// The desirability of every step that leaves `u`.
fn desirability_row(
    rows: &Vec<Vec<u64>>,
    u: usize,
    d: usize,
    alpha: i32,
    Ghost(pts): Ghost<Seq<Point>>,
) -> (row: Vec<u64>)
    requires
        is_full_index(rows@, pts),
        u < pts.len(),
        d < pts.len(),
    ensures
        row@.len() == pts.len(),
        forall|v: int|
            0 <= v < pts.len() ==> #[trigger] row@[v] == spec_desirability(
                pts,
                d as int,
                alpha,
                u as int,
                v,
            ),
{
    let n = rows.len();
    let range = through_range(rows, u, d, Ghost(pts));
    let size = magnitude(alpha);
    proof {
        if range.0 {
            lemma_least_through_is(pts, u as int, d as int, range.1 as nat);
            lemma_greatest_through_is(pts, u as int, d as int, range.2 as nat);
        }
    }
    let mut row: Vec<u64> = Vec::new();
    let mut v: usize = 0;
    while v < n
        invariant
            v <= n,
            n == pts.len(),
            is_full_index(rows@, pts),
            u < n,
            d < n,
            size == spec_magnitude(alpha),
            range.0 ==> least_through(pts, u as int, d as int) == range.1,
            range.0 ==> greatest_through(pts, u as int, d as int) == range.2,
            range.0 == (exists|w: int| is_eligible(pts.len(), u as int, w, d as int)),
            row@.len() == v,
            forall|w: int|
                0 <= w < v ==> #[trigger] row@[w] == spec_desirability(
                    pts,
                    d as int,
                    alpha,
                    u as int,
                    w,
                ),
        decreases n - v,
    {
        if v != u && v != d {
            proof {
                lemma_distance_bound(pts[u as int], pts[v as int]);
                lemma_distance_bound(pts[v as int], pts[d as int]);
            }
            assert(is_eligible(pts.len(), u as int, v as int, d as int));
            let x: u64 = rows[u][v] + rows[v][d];
            let base = if alpha >= 0 {
                fraction(range.1, x)
            } else {
                fraction(x, range.2)
            };
            row.push(fraction_power(base, size));
        } else {
            row.push(0);
        }
        v += 1;
    }
    row
}

/// The desirability of every step, for the destination `d` and the
/// exponent `alpha`.
pub(crate) fn desirability_table(rows: &Vec<Vec<u64>>, d: usize, alpha: i32, Ghost(pts): Ghost<Seq<Point>>) -> (table:
    Vec<Vec<u64>>)
    requires
        is_full_index(rows@, pts),
        d < pts.len(),
    ensures
        is_desirability_table(table@, pts, d as int, alpha),
{
    let n = rows.len();
    let mut table: Vec<Vec<u64>> = Vec::new();
    let mut u: usize = 0;
    while u < n
        invariant
            u <= n,
            n == pts.len(),
            is_full_index(rows@, pts),
            d < n,
            table@.len() == u,
            forall|a: int| 0 <= a < u ==> (#[trigger] table@[a])@.len() == pts.len(),
            forall|a: int, v: int|
                0 <= a < u && 0 <= v < pts.len() ==> #[trigger] table@[a]@[v] == spec_desirability(
                    pts,
                    d as int,
                    alpha,
                    a,
                    v,
                ),
        decreases n - u,
    {
        let row = desirability_row(rows, u, d, alpha, Ghost(pts));
        table.push(row);
        u += 1;
    }
    table
}

/// `m` is the smallest of the values.
pub open spec fn is_least_of(values: Seq<u64>, m: u64) -> bool {
    &&& values.contains(m)
    &&& forall|i: int| 0 <= i < values.len() ==> #[trigger] values[i] >= m
}

/// `m` is the largest of the values.
pub open spec fn is_greatest_of(values: Seq<u64>, m: u64) -> bool {
    &&& values.contains(m)
    &&& forall|i: int| 0 <= i < values.len() ==> #[trigger] values[i] <= m
}

/// The smallest of the values.
pub open spec fn least_of(values: Seq<u64>) -> u64 {
    choose|m: u64| is_least_of(values, m)
}

/// The largest of the values.
pub open spec fn greatest_of(values: Seq<u64>) -> u64 {
    choose|m: u64| is_greatest_of(values, m)
}

/// The smallest of the values is unique.
pub proof fn lemma_least_of_is(values: Seq<u64>, m: u64)
    requires
        is_least_of(values, m),
    ensures
        least_of(values) == m,
{
    let other = least_of(values);
    assert(is_least_of(values, other));
    let i = choose|i: int| 0 <= i < values.len() && values[i] == m;
    let j = choose|j: int| 0 <= j < values.len() && values[j] == other;
    assert(values[i] >= other);
    assert(values[j] >= m);
}

/// The largest of the values is unique.
pub proof fn lemma_greatest_of_is(values: Seq<u64>, m: u64)
    requires
        is_greatest_of(values, m),
    ensures
        greatest_of(values) == m,
{
    let other = greatest_of(values);
    assert(is_greatest_of(values, other));
    let i = choose|i: int| 0 <= i < values.len() && values[i] == m;
    let j = choose|j: int| 0 <= j < values.len() && values[j] == other;
    assert(values[i] <= other);
    assert(values[j] <= m);
}

/// The smallest and the largest of the values.
pub fn extremes(values: &Vec<u64>) -> (r: (u64, u64))
    requires
        values@.len() > 0,
    ensures
        r.0 == least_of(values@),
        r.1 == greatest_of(values@),
        is_least_of(values@, r.0),
        is_greatest_of(values@, r.1),
{
    let mut lo: u64 = values[0];
    let mut hi: u64 = values[0];
    let ghost mut at_lo: int = 0;
    let ghost mut at_hi: int = 0;
    let mut i: usize = 1;
    while i < values.len()
        invariant
            1 <= i <= values@.len(),
            0 <= at_lo < i,
            0 <= at_hi < i,
            values@[at_lo] == lo,
            values@[at_hi] == hi,
            forall|j: int| 0 <= j < i ==> lo <= #[trigger] values@[j] <= hi,
        decreases values@.len() - i,
    {
        if values[i] < lo {
            lo = values[i];
            proof {
                at_lo = i as int;
            }
        }
        if values[i] > hi {
            hi = values[i];
            proof {
                at_hi = i as int;
            }
        }
        i += 1;
    }
    proof {
        assert(values@.contains(lo));
        assert(values@.contains(hi));
        lemma_least_of_is(values@, lo);
        lemma_greatest_of_is(values@, hi);
    }
    (lo, hi)
}

/// The share of a node's pheromone in its weight, as a fraction.
///
/// For an exponent `beta` that is not negative it is the power `beta` of
/// the node's pheromone divided by the largest pheromone; for a negative
/// exponent the power `-beta` of the smallest pheromone divided by the
/// node's.
pub open spec fn spec_pheromone_share(pheromones: Seq<u64>, beta: i32, c: int) -> nat {
    if beta >= 0 {
        spec_fraction_power(
            spec_fraction(pheromones[c] as nat, greatest_of(pheromones) as nat),
            spec_magnitude(beta),
        )
    } else {
        spec_fraction_power(
            spec_fraction(least_of(pheromones) as nat, pheromones[c] as nat),
            spec_magnitude(beta),
        )
    }
}

/// The weight of a node in a draw: zero for a node that was visited and
/// for the destination, else the product of desirability and pheromone
/// share, and at least one.
pub open spec fn spec_candidate_weight(
    desirability: Seq<u64>,
    pheromones: Seq<u64>,
    beta: i32,
    visited: Seq<bool>,
    d: int,
    c: int,
) -> nat {
    if visited[c] || c == d {
        0
    } else if desirability[c] as nat * spec_pheromone_share(pheromones, beta, c) == 0 {
        1
    } else {
        desirability[c] as nat * spec_pheromone_share(pheromones, beta, c)
    }
}

/// The weights of all nodes in one draw.
pub fn candidate_weights(
    desirability: &Vec<u64>,
    pheromones: &Vec<u64>,
    beta: i32,
    visited: &Vec<bool>,
    d: usize,
) -> (weights: Vec<u64>)
    requires
        desirability@.len() == pheromones@.len(),
        visited@.len() == pheromones@.len(),
        forall|c: int| 0 <= c < desirability@.len() ==> #[trigger] desirability@[c] <= FRACTION_ONE,
    ensures
        weights@.len() == pheromones@.len(),
        forall|c: int|
            0 <= c < weights@.len() ==> #[trigger] weights@[c] == spec_candidate_weight(
                desirability@,
                pheromones@,
                beta,
                visited@,
                d as int,
                c,
            ),
{
    let n = pheromones.len();
    let mut weights: Vec<u64> = Vec::new();
    if n == 0 {
        return weights;
    }
    let range = extremes(pheromones);
    let size = magnitude(beta);
    let mut c: usize = 0;
    while c < n
        invariant
            c <= n,
            n == pheromones@.len(),
            desirability@.len() == n,
            visited@.len() == n,
            forall|i: int| 0 <= i < desirability@.len() ==> #[trigger] desirability@[i] <= FRACTION_ONE,
            range.0 == least_of(pheromones@),
            range.1 == greatest_of(pheromones@),
            size == spec_magnitude(beta),
            weights@.len() == c,
            forall|i: int|
                0 <= i < c ==> #[trigger] weights@[i] == spec_candidate_weight(
                    desirability@,
                    pheromones@,
                    beta,
                    visited@,
                    d as int,
                    i,
                ),
        decreases n - c,
    {
        if visited[c] || c == d {
            weights.push(0);
        } else {
            let base = if beta >= 0 {
                fraction(pheromones[c], range.1)
            } else {
                fraction(range.0, pheromones[c])
            };
            let share = fraction_power(base, size);
            assert(desirability@[c as int] <= FRACTION_ONE);
            assert(desirability@[c as int] * share <= 0x8000_0000 * 0x8000_0000) by (nonlinear_arith)
                requires
                    desirability@[c as int] <= 0x8000_0000,
                    share <= 0x8000_0000,
            ;
            let product: u64 = desirability[c] * share;
            if product == 0 {
                weights.push(1);
            } else {
                weights.push(product);
            }
        }
        c += 1;
    }
    weights
}

/// The sum of the first `upto` weights.
pub open spec fn weight_sum(weights: Seq<u64>, upto: int) -> nat
    decreases upto,
{
    if upto <= 0 {
        0
    } else {
        weight_sum(weights, upto - 1) + weights[upto - 1] as nat
    }
}

/// The sum of the first weights grows with their number, by at least each
/// weight that joins, and stays below 2^64 for each weight.
pub proof fn lemma_weight_sum_grows(weights: Seq<u64>, i: int, j: int)
    requires
        0 <= i <= j <= weights.len(),
    ensures
        weight_sum(weights, i) <= weight_sum(weights, j),
        weight_sum(weights, j) <= j * 0x1_0000_0000_0000_0000,
        i < j ==> weight_sum(weights, i) + weights[i] <= weight_sum(weights, j),
    decreases j,
{
    if j > 0 {
        if i < j {
            lemma_weight_sum_grows(weights, i, j - 1);
        } else {
            lemma_weight_sum_grows(weights, j - 1, j - 1);
        }
    }
}

/// The sum of all weights.
pub fn total_weight(weights: &Vec<u64>) -> (total: u128)
    ensures
        total == weight_sum(weights@, weights@.len() as int),
{
    let mut total: u128 = 0;
    let mut i: usize = 0;
    while i < weights.len()
        invariant
            i <= weights@.len(),
            total == weight_sum(weights@, i as int),
        decreases weights@.len() - i,
    {
        proof {
            lemma_weight_sum_grows(weights@, i as int, i as int);
            assert(i * 0x1_0000_0000_0000_0000 <= 0xffff_ffff_ffff_ffff * 0x1_0000_0000_0000_0000)
                by (nonlinear_arith)
                requires
                    0 <= i <= 0xffff_ffff_ffff_ffff,
            ;
        }
        total = total + weights[i] as u128;
        i += 1;
    }
    total
}

/// The roulette wheel: the node on whose stretch of the summed weights the
/// draw falls.
pub fn pick_weighted(weights: &Vec<u64>, draw: u128) -> (c: usize)
    requires
        draw < weight_sum(weights@, weights@.len() as int),
    ensures
        c < weights@.len(),
        weight_sum(weights@, c as int) <= draw < weight_sum(weights@, c + 1),
        weights@[c as int] > 0,
        c == spec_pick(weights@, draw),
{
    let n = weights.len();
    let mut passed: u128 = 0;
    let mut i: usize = 0;
    loop
        invariant
            n == weights@.len(),
            i < n,
            passed == weight_sum(weights@, i as int),
            passed <= draw,
            draw < weight_sum(weights@, weights@.len() as int),
        decreases weights@.len() - i,
    {
        proof {
            lemma_weight_sum_grows(weights@, i as int, weights@.len() as int);
            lemma_weight_sum_grows(weights@, i + 1, weights@.len() as int);
            lemma_weight_sum_grows(weights@, i as int, i as int);
            assert(i * 0x1_0000_0000_0000_0000 <= 0xffff_ffff_ffff_ffff * 0x1_0000_0000_0000_0000)
                by (nonlinear_arith)
                requires
                    0 <= i <= 0xffff_ffff_ffff_ffff,
            ;
        }
        let next: u128 = passed + weights[i] as u128;
        if draw < next {
            proof {
                lemma_pick_is(weights@, draw, i);
            }
            return i;
        }
        passed = next;
        i += 1;
    }
}

/// The node on whose stretch of the summed weights the draw falls.
pub open spec fn spec_pick(weights: Seq<u64>, draw: u128) -> usize {
    choose|c: usize|
        c < weights.len() && #[trigger] weight_sum(weights, c as int) <= draw && draw < weight_sum(
            weights,
            c + 1,
        )
}

/// A draw falls on the stretch of one node only.
pub proof fn lemma_pick_is(weights: Seq<u64>, draw: u128, c: usize)
    requires
        c < weights.len(),
        weight_sum(weights, c as int) <= draw < weight_sum(weights, c + 1),
    ensures
        spec_pick(weights, draw) == c,
{
    let other = spec_pick(weights, draw);
    if other < c {
        lemma_weight_sum_grows(weights, other + 1, c as int);
    } else if c < other {
        lemma_weight_sum_grows(weights, c + 1, other as int);
    }
}

/// No desirability is above one.
pub proof fn lemma_desirability_bound(pts: Seq<Point>, d: int, alpha: i32, u: int, v: int)
    ensures
        spec_desirability(pts, d, alpha, u, v) <= FRACTION_ONE,
{
    lemma_fraction_power_bound(
        spec_fraction(least_through(pts, u, d), through(pts, u, v, d)),
        spec_magnitude(alpha),
    );
    lemma_fraction_power_bound(
        spec_fraction(through(pts, u, v, d), greatest_through(pts, u, d)),
        spec_magnitude(alpha),
    );
}

} // verus!
