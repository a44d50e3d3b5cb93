//! The greedy constructor: a route from source to destination grown by
//! repeated cheapest insertion.

use vstd::prelude::*;
use crate::data::Point;
use crate::data::lemma_distance_bound;
use crate::graph::Graph;
use crate::graph::MapPath;
use crate::graph::Path;
use crate::graph::first_index;
use crate::graph::full_distance_index;
use crate::graph::intermediates;
use crate::graph::is_full_index;
use crate::graph::is_path_between;
use crate::graph::is_simple_route;
use crate::graph::lemma_insert_contains;
use crate::graph::lemma_simple_route_points;
use crate::graph::lemma_unused_node_exists;
use crate::graph::lemma_route_length_bound;
use crate::graph::lemma_route_length_insert;
use crate::graph::points_of;
use crate::graph::route_length;

verus! {

/// The length of the way from `u` to `v` through `c`.
pub open spec fn detour(pts: Seq<Point>, u: usize, c: usize, v: usize) -> nat {
    pts[u as int].spec_distance_to(pts[c as int]) + pts[c as int].spec_distance_to(pts[v as int])
}

/// Node `c` can be put on the edge that leaves position `e` of the route:
/// the edge exists and the node is not on the route yet.
pub open spec fn is_insertion(n: nat, route: Seq<usize>, e: int, c: usize) -> bool {
    &&& 0 <= e < route.len() - 1
    &&& c < n
    &&& !route.contains(c)
}

/// The detour that node `c` makes on the edge that leaves position `e`.
pub open spec fn insertion_cost(pts: Seq<Point>, route: Seq<usize>, e: int, c: usize) -> nat {
    detour(pts, route[e], c, route[e + 1])
}

/// The order in which insertions are preferred: the smaller detour first,
/// among equal detours the earlier edge, on one edge the earlier node.
pub open spec fn insertion_precedes(
    pts: Seq<Point>,
    route: Seq<usize>,
    e1: int,
    c1: usize,
    e2: int,
    c2: usize,
) -> bool {
    let k1 = insertion_cost(pts, route, e1, c1);
    let k2 = insertion_cost(pts, route, e2, c2);
    k1 < k2 || (k1 == k2 && (e1 < e2 || (e1 == e2 && c1 <= c2)))
}

/// Putting `c` on the edge at `e` is preferred to every other insertion.
pub open spec fn is_best_insertion(pts: Seq<Point>, route: Seq<usize>, e: int, c: usize) -> bool {
    &&& is_insertion(pts.len(), route, e, c)
    &&& forall|e2: int, c2: usize| #[trigger]
        is_insertion(pts.len(), route, e2, c2) ==> insertion_precedes(pts, route, e, c, e2, c2)
}

/// The preferred insertion into a route: the edge's position and the node.
pub open spec fn best_insertion(pts: Seq<Point>, route: Seq<usize>) -> (int, usize) {
    choose|b: (int, usize)| is_best_insertion(pts, route, b.0, b.1)
}

/// The route from `s` to `d` after `k` preferred insertions.
pub open spec fn greedy_route(pts: Seq<Point>, s: usize, d: usize, k: nat) -> Seq<usize>
    decreases k,
{
    if k == 0 {
        seq![s, d]
    } else {
        let shorter = greedy_route(pts, s, d, (k - 1) as nat);
        let b = best_insertion(pts, shorter);
        shorter.insert(b.0 + 1, b.1)
    }
}

/// At most one insertion is preferred to all others.
pub proof fn lemma_best_insertion_is(pts: Seq<Point>, route: Seq<usize>, e: int, c: usize)
    requires
        is_best_insertion(pts, route, e, c),
    ensures
        best_insertion(pts, route) == (e, c),
{
    let b = best_insertion(pts, route);
    assert(is_best_insertion(pts, route, (e, c).0, (e, c).1));
    assert(is_best_insertion(pts, route, b.0, b.1));
    assert(is_insertion(pts.len(), route, e, c));
    assert(is_insertion(pts.len(), route, b.0, b.1));
    assert(insertion_precedes(pts, route, e, c, b.0, b.1));
    assert(insertion_precedes(pts, route, b.0, b.1, e, c));
}

/// An insertion of a node that is not on a simple route leaves it simple.
pub proof fn lemma_insert_keeps_simple(n: nat, route: Seq<usize>, s: usize, d: usize, e: int, c: usize)
    requires
        is_simple_route(n, route, s, d),
        is_insertion(n, route, e, c),
    ensures
        is_simple_route(n, route.insert(e + 1, c), s, d),
{
    let longer = route.insert(e + 1, c);
    let inner = intermediates(route);
    assert(route[0] == s);
    assert(route[route.len() - 1] == d);
    assert(c != s && c != d);
    assert(intermediates(longer) =~= inner.insert(e, c));
    assert forall|i: int| 0 <= i < longer.len() implies #[trigger] longer[i] < n by {
        if i < e + 1 {
            assert(longer[i] == route[i]);
        } else if i > e + 1 {
            assert(longer[i] == route[i - 1]);
        }
    }
    assert(!inner.contains(c)) by {
        if inner.contains(c) {
            let j = choose|j: int| 0 <= j < inner.len() && inner[j] == c;
            assert(route[j + 1] == c);
        }
    }
    lemma_insert_contains(inner, e, c, s);
    lemma_insert_contains(inner, e, c, d);
    let grown = inner.insert(e, c);
    assert forall|i: int, j: int| 0 <= i < grown.len() && 0 <= j < grown.len() && i != j implies grown[i]
        != grown[j] by {
        let a = if i < e {
            i
        } else {
            i - 1
        };
        let b = if j < e {
            j
        } else {
            j - 1
        };
        if i == e {
            assert(grown[j] == inner[b]);
        } else if j == e {
            assert(grown[i] == inner[a]);
        } else {
            assert(grown[i] == inner[a]);
            assert(grown[j] == inner[b]);
            assert(a != b);
        }
    }
}

/// The points of a route after an insertion.
pub proof fn lemma_points_of_insert(pts: Seq<Point>, route: Seq<usize>, i: int, c: usize)
    requires
        0 <= i <= route.len(),
    ensures
        points_of(pts, route.insert(i, c)) == points_of(pts, route).insert(i, pts[c as int]),
{
    assert(points_of(pts, route.insert(i, c)) =~= points_of(pts, route).insert(i, pts[c as int]));
}

/// Scans every edge of the route and every node off the route, and returns
/// the preferred insertion.
fn find_best_insertion(
    rows: &Vec<Vec<u64>>,
    route: &Vec<usize>,
    used: &Vec<bool>,
    Ghost(pts): Ghost<Seq<Point>>,
) -> (b: (usize, usize))
    requires
        is_full_index(rows@, pts),
        route@.len() >= 2,
        forall|i: int| 0 <= i < route@.len() ==> #[trigger] route@[i] < pts.len(),
        used@.len() == pts.len(),
        forall|c: usize| c < pts.len() ==> #[trigger] used@[c as int] == route@.contains(c),
        exists|c: usize| c < pts.len() && !route@.contains(c),
    ensures
        is_best_insertion(pts, route@, b.0 as int, b.1),
{
    let n = used.len();
    let mut best: Option<(usize, usize, u64)> = None;
    let mut e: usize = 0;
    while e < route.len() - 1
        invariant
            is_full_index(rows@, pts),
            route@.len() >= 2,
            forall|i: int| 0 <= i < route@.len() ==> #[trigger] route@[i] < pts.len(),
            used@.len() == pts.len(),
            n == pts.len(),
            forall|c: usize| c < pts.len() ==> #[trigger] used@[c as int] == route@.contains(c),
            e <= route@.len() - 1,
            best matches Some(t) ==> {
                &&& is_insertion(pts.len(), route@, t.0 as int, t.1)
                &&& t.2 == insertion_cost(pts, route@, t.0 as int, t.1)
                &&& t.0 < e
                &&& forall|e2: int, c2: usize| #[trigger]
                    is_insertion(pts.len(), route@, e2, c2) && e2 < e ==> insertion_precedes(
                        pts,
                        route@,
                        t.0 as int,
                        t.1,
                        e2,
                        c2,
                    )
            },
            best is None ==> forall|e2: int, c2: usize| #[trigger]
                is_insertion(pts.len(), route@, e2, c2) ==> e2 >= e,
        decreases route@.len() - e,
    {
        let u = route[e];
        let v = route[e + 1];
        let mut c: usize = 0;
        while c < n
            invariant
                is_full_index(rows@, pts),
                route@.len() >= 2,
                e < route@.len() - 1,
                u == route@[e as int],
                v == route@[e + 1],
                u < pts.len(),
                v < pts.len(),
                used@.len() == pts.len(),
                n == pts.len(),
                forall|c: usize| c < pts.len() ==> #[trigger] used@[c as int] == route@.contains(c),
                c <= n,
                best matches Some(t) ==> {
                    &&& is_insertion(pts.len(), route@, t.0 as int, t.1)
                    &&& t.2 == insertion_cost(pts, route@, t.0 as int, t.1)
                    &&& t.0 < e || (t.0 == e && t.1 < c)
                    &&& forall|e2: int, c2: usize| #[trigger]
                        is_insertion(pts.len(), route@, e2, c2) && (e2 < e || (e2 == e && c2 < c))
                            ==> insertion_precedes(pts, route@, t.0 as int, t.1, e2, c2)
                },
                best is None ==> forall|e2: int, c2: usize| #[trigger]
                    is_insertion(pts.len(), route@, e2, c2) ==> e2 > e || (e2 == e && c2 >= c),
            decreases n - c,
        {
            if !used[c] {
                proof {
                    lemma_distance_bound(pts[u as int], pts[c as int]);
                    lemma_distance_bound(pts[c as int], pts[v as int]);
                }
                let cost: u64 = rows[u][c] + rows[c][v];
                assert(cost == insertion_cost(pts, route@, e as int, c));
                let better = match best {
                    None => true,
                    Some(t) => cost < t.2,
                };
                if better {
                    best = Some((e, c, cost));
                }
            }
            c += 1;
        }
        e += 1;
    }
    proof {
        let c0 = choose|c: usize| c < pts.len() && !route@.contains(c);
        assert(is_insertion(pts.len(), route@, 0, c0));
    }
    match best {
        Some(t) => (t.0, t.1),
        None => (0, 0),
    }
}

impl Graph {
    /// Grows the route from node `s` to node `d` by `k` cheapest insertions.
    ///
    /// Each step looks at every edge of the route and every node that is not
    /// on it, and puts the node with the smallest detour on its edge; of equal
    /// detours the one on the earlier edge wins, and on one edge the earlier
    /// node. The length is kept up to date with each insertion.
    pub fn greedy_insertion(&self, s: usize, d: usize, k: usize) -> (r: MapPath)
        requires
            s < self.nodes@.len(),
            d < self.nodes@.len(),
            k + 2 <= self.nodes@.len(),
        ensures
            r.ids() == greedy_route(self.nodes@, s, d, k as nat),
            r.points() == points_of(self.nodes@, r.ids()),
            r.length == route_length(r.points()),
            r.nodes@.len() == k + 2,
            is_simple_route(self.nodes@.len(), r.ids(), s, d),
    {
        let ghost pts = self.nodes@;
        let n = self.nodes.len();
        let rows = full_distance_index(&self.nodes);
        let mut route: Vec<usize> = Vec::new();
        route.push(s);
        route.push(d);
        let mut used: Vec<bool> = Vec::new();
        let mut i: usize = 0;
        while i < n
            invariant
                i <= n,
                n == pts.len(),
                s < n,
                d < n,
                used@.len() == i,
                forall|c: int| 0 <= c < i ==> #[trigger] used@[c] == (c == s || c == d),
            decreases n - i,
        {
            used.push(i == s || i == d);
            i += 1;
        }
        let mut length: u128 = rows[s][d] as u128;
        proof {
            assert(route@ =~= seq![s, d]);
            assert(intermediates(route@) =~= Seq::<usize>::empty());
            let p = points_of(pts, route@);
            assert(p.drop_last().len() == 1);
            assert(route_length(p.drop_last()) == 0);
            assert(route_length(p) == pts[s as int].spec_distance_to(pts[d as int]));
            assert forall|c: usize| c < pts.len() implies #[trigger] used@[c as int] == route@.contains(
                c,
            ) by {
                if c == s {
                    assert(route@[0] == c);
                }
                if c == d {
                    assert(route@[1] == c);
                }
            }
        }
        let mut j: usize = 0;
        while j < k
            invariant
                j <= k,
                k + 2 <= n,
                n == pts.len(),
                pts == self.nodes@,
                is_full_index(rows@, pts),
                route@ == greedy_route(pts, s, d, j as nat),
                route@.len() == j + 2,
                is_simple_route(pts.len(), route@, s, d),
                used@.len() == n,
                forall|c: usize| c < pts.len() ==> #[trigger] used@[c as int] == route@.contains(c),
                length == route_length(points_of(pts, route@)),
            decreases k - j,
        {
            proof {
                lemma_unused_node_exists(pts.len(), route@);
            }
            let b = find_best_insertion(&rows, &route, &used, Ghost(pts));
            let e = b.0;
            let c = b.1;
            let u = route[e];
            let v = route[e + 1];
            proof {
                let p = points_of(pts, route@);
                lemma_best_insertion_is(pts, route@, e as int, c);
                lemma_route_length_insert(p, e + 1, pts[c as int]);
                lemma_points_of_insert(pts, route@, e + 1, c);
                lemma_route_length_bound(p);
                lemma_distance_bound(pts[u as int], pts[c as int]);
                lemma_distance_bound(pts[c as int], pts[v as int]);
                lemma_insert_keeps_simple(pts.len(), route@, s, d, e as int, c);
                assert(p[e as int] == pts[u as int]);
                assert(p[e + 1] == pts[v as int]);
                assert(p.len() * 0x2_0000_0000 <= 0x1_0000_0000_0000_0000 * 0x2_0000_0000)
                    by (nonlinear_arith)
                    requires
                        p.len() <= 0x1_0000_0000_0000_0000,
                ;
                assert forall|x: usize| x < pts.len() implies #[trigger] used@.update(c as int, true)[x as int]
                    == route@.insert(e + 1, c).contains(x) by {
                    lemma_insert_contains(route@, e + 1, c, x);
                }
            }
            length = length + rows[u][c] as u128 + rows[c][v] as u128 - rows[u][v] as u128;
            route.insert(e + 1, c);
            used.set(c, true);
            j += 1;
        }
        let r = MapPath::from_route(&self.nodes, &route, length);
        r
    }

    /// The points of the route that `k` cheapest insertions grow from
    /// `source` to `destination`.
    pub open spec fn greedy_points(self, source: Point, destination: Point, k: usize) -> Seq<Point> {
        points_of(
            self.nodes@,
            greedy_route(
                self.nodes@,
                first_index(self.nodes@, source) as usize,
                first_index(self.nodes@, destination) as usize,
                k as nat,
            ),
        )
    }

    /// What the greedy constructor returns: nothing for a request that is
    /// not feasible, else the grown route with the sum of its distances.
    pub open spec fn is_greedy_result(self, source: Point, destination: Point, k: usize, r: Option<Path>) -> bool {
        &&& r.is_some() == self.spec_feasible(source, destination, k)
        &&& r matches Some(p) ==> p.points@ == self.greedy_points(source, destination, k) && p.length
            == route_length(p.points@)
    }

    /// The greedy constructor.
    ///
    /// When both end points are nodes of the graph and the graph holds `k`
    /// nodes besides two end points, returns the route from `source` to
    /// `destination` grown by `k` cheapest insertions, with its length;
    /// otherwise `None`.
    pub fn find_shortest_path_with_intermediate_points(
        &self,
        source: &Point,
        destination: &Point,
        k: usize,
    ) -> (r: Option<Path>)
        ensures
            self.is_greedy_result(*source, *destination, k, r),
            r matches Some(p) ==> is_path_between(self.nodes@, p.points@, *source, *destination, k as nat),
    {
        let (s, d) = match self.locate(source, destination, k) {
            Some(ends) => ends,
            None => {
                return None;
            },
        };
        let route = self.greedy_insertion(s, d, k);
        let ghost ids = route.ids();
        let ghost pts = self.nodes@;
        let p = route.into_path();
        proof {
            lemma_simple_route_points(pts, ids, s, d, k as nat);
        }
        Some(p)
    }
}

/// The greedy constructor is a function of its arguments: two results for
/// one request hold the same points and the same length.
pub proof fn lemma_greedy_deterministic(
    graph: Graph,
    source: Point,
    destination: Point,
    k: usize,
    first: Option<Path>,
    second: Option<Path>,
)
    requires
        graph.is_greedy_result(source, destination, k, first),
        graph.is_greedy_result(source, destination, k, second),
    ensures
        first.is_some() == second.is_some(),
        first.is_some() ==> first.unwrap().points@ == second.unwrap().points@ && first.unwrap().length
            == second.unwrap().length,
{
}

} // verus!
