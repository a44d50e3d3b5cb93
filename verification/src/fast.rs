//! The candidate preprocessor and the fast variant of the greedy
//! constructor: only the nodes nearest to the straight way from source to
//! destination are kept before the route is grown.

use vstd::prelude::*;
use crate::data::Point;
use crate::data::lemma_distance_bound;
use crate::data::lemma_distance_symmetric;
use crate::graph::Graph;
use crate::graph::MapNode;
use crate::graph::Path;
use crate::graph::distance_index;
use crate::graph::intermediates;
use crate::graph::is_distance_index;
use crate::graph::first_index;
use crate::graph::is_path_between;
use crate::graph::is_simple_route;
use crate::graph::lemma_unused_node_exists;
use crate::graph::make_nodes;
use crate::graph::points_of;
use crate::graph::route_length;
use crate::greedy::detour;
use crate::greedy::best_insertion;
use crate::greedy::greedy_route;
use crate::greedy::insertion_cost;
use crate::greedy::is_best_insertion;
use crate::greedy::insertion_precedes;
use crate::greedy::is_insertion;
use crate::greedy::lemma_best_insertion_is;
use crate::graph::lemma_first_index_exists;

verus! {

/// Node `c` may be kept: it is a node and neither end of the route.
pub open spec fn is_candidate(n: nat, s: usize, d: usize, c: usize) -> bool {
    c < n && c != s && c != d
}

/// Node `a` ranks before node `b`: its way from source to destination is
/// shorter, or as long while `a` stands earlier among the nodes.
pub open spec fn ranks_before(pts: Seq<Point>, s: usize, d: usize, a: usize, b: usize) -> bool {
    detour(pts, s, a, d) < detour(pts, s, b, d) || (detour(pts, s, a, d) == detour(pts, s, b, d) && a
        < b)
}

/// `ranked` lists candidates in rising rank, and every candidate that it
/// leaves out ranks behind all that it lists.
pub open spec fn is_ranking(pts: Seq<Point>, s: usize, d: usize, ranked: Seq<usize>) -> bool {
    &&& forall|i: int| 0 <= i < ranked.len() ==> is_candidate(pts.len(), s, d, #[trigger] ranked[i])
    &&& forall|i: int, j: int|
        0 <= i < j < ranked.len() ==> ranks_before(pts, s, d, #[trigger] ranked[i], #[trigger] ranked[j])
    &&& forall|c: usize, i: int|
        is_candidate(pts.len(), s, d, c) && !ranked.contains(c) && 0 <= i < ranked.len()
            ==> #[trigger] ranks_before(pts, s, d, ranked[i], c)
}

/// The nodes of the reduced graph: source, destination, and the points of
/// the ranked candidates in their order.
pub open spec fn reduced_nodes(pts: Seq<Point>, s: usize, d: usize, ranked: Seq<usize>) -> Seq<Point> {
    seq![pts[s as int], pts[d as int]] + points_of(pts, ranked)
}

/// Two rankings of one length are the same.
pub proof fn lemma_ranking_unique(pts: Seq<Point>, s: usize, d: usize, a: Seq<usize>, b: Seq<usize>)
    requires
        is_ranking(pts, s, d, a),
        is_ranking(pts, s, d, b),
        a.len() == b.len(),
    ensures
        a == b,
{
    assert forall|i: int| 0 <= i < a.len() implies a[i] == b[i] by {
        lemma_ranking_agrees(pts, s, d, a, b, i);
    }
    assert(a =~= b);
}

/// Two rankings of one length agree at every position.
proof fn lemma_ranking_agrees(pts: Seq<Point>, s: usize, d: usize, a: Seq<usize>, b: Seq<usize>, i: int)
    requires
        is_ranking(pts, s, d, a),
        is_ranking(pts, s, d, b),
        a.len() == b.len(),
        0 <= i < a.len(),
    ensures
        a[i] == b[i],
    decreases i,
{
    assert forall|j: int| 0 <= j < i implies a[j] == b[j] by {
        lemma_ranking_agrees(pts, s, d, a, b, j);
    }
    if a[i] != b[i] {
        lemma_ranking_step(pts, s, d, a, b, i);
        lemma_ranking_step(pts, s, d, b, a, i);
    }
}

/// Where two rankings agree before position `i` and differ at it, the
/// second one's node ranks before the first one's.
proof fn lemma_ranking_step(pts: Seq<Point>, s: usize, d: usize, a: Seq<usize>, b: Seq<usize>, i: int)
    requires
        is_ranking(pts, s, d, a),
        is_ranking(pts, s, d, b),
        a.len() == b.len(),
        0 <= i < a.len(),
        forall|j: int| 0 <= j < i ==> a[j] == b[j],
        a[i] != b[i],
    ensures
        ranks_before(pts, s, d, b[i], a[i]),
{
    let x = a[i];
    assert(is_candidate(pts.len(), s, d, x));
    if b.contains(x) {
        let j = choose|j: int| 0 <= j < b.len() && b[j] == x;
        if j < i {
            assert(a[j] == b[j]);
            assert(ranks_before(pts, s, d, a[j], a[i]));
        } else {
            assert(j > i);
            assert(ranks_before(pts, s, d, b[i], b[j]));
        }
    } else {
        assert(ranks_before(pts, s, d, b[i], x));
    }
}

/// Ranks the candidates and keeps the first `k`.
fn rank_candidates(rows: &Vec<Vec<u64>>, s: usize, d: usize, k: usize, Ghost(pts): Ghost<Seq<Point>>) -> (ranked:
    Vec<usize>)
    requires
        s < pts.len(),
        d < pts.len(),
        k + 2 <= pts.len(),
        rows@.len() == 2,
        rows@[0]@.len() == pts.len(),
        rows@[1]@.len() == pts.len(),
        forall|c: int| 0 <= c < pts.len() ==> #[trigger] rows@[0]@[c] == pts[s as int].spec_distance_to(pts[c]),
        forall|c: int| 0 <= c < pts.len() ==> #[trigger] rows@[1]@[c] == pts[d as int].spec_distance_to(pts[c]),
    ensures
        ranked@.len() == k,
        is_ranking(pts, s, d, ranked@),
{
    let n = rows[0].len();
    let mut taken: Vec<bool> = Vec::new();
    let mut i: usize = 0;
    while i < n
        invariant
            i <= n,
            taken@.len() == i,
            forall|c: int| 0 <= c < i ==> !(#[trigger] taken@[c]),
        decreases n - i,
    {
        taken.push(false);
        i += 1;
    }
    let mut ranked: Vec<usize> = Vec::new();
    let mut j: usize = 0;
    while j < k
        invariant
            j <= k,
            k + 2 <= n,
            n == pts.len(),
            s < n,
            d < n,
            rows@.len() == 2,
            rows@[0]@.len() == pts.len(),
            rows@[1]@.len() == pts.len(),
            forall|c: int|
                0 <= c < pts.len() ==> #[trigger] rows@[0]@[c] == pts[s as int].spec_distance_to(pts[c]),
            forall|c: int|
                0 <= c < pts.len() ==> #[trigger] rows@[1]@[c] == pts[d as int].spec_distance_to(pts[c]),
            ranked@.len() == j,
            is_ranking(pts, s, d, ranked@),
            taken@.len() == n,
            forall|c: usize| c < n ==> #[trigger] taken@[c as int] == ranked@.contains(c),
        decreases k - j,
    {
        let mut best: Option<(usize, u64)> = None;
        let mut c: usize = 0;
        while c < n
            invariant
                c <= n,
                n == pts.len(),
                s < n,
                d < n,
                rows@.len() == 2,
                rows@[0]@.len() == pts.len(),
                rows@[1]@.len() == pts.len(),
                forall|c: int|
                    0 <= c < pts.len() ==> #[trigger] rows@[0]@[c] == pts[s as int].spec_distance_to(
                        pts[c],
                    ),
                forall|c: int|
                    0 <= c < pts.len() ==> #[trigger] rows@[1]@[c] == pts[d as int].spec_distance_to(
                        pts[c],
                    ),
                taken@.len() == n,
                forall|c: usize| c < n ==> #[trigger] taken@[c as int] == ranked@.contains(c),
                best matches Some(t) ==> {
                    &&& t.0 < c
                    &&& is_candidate(pts.len(), s, d, t.0)
                    &&& !ranked@.contains(t.0)
                    &&& t.1 == detour(pts, s, t.0, d)
                    &&& forall|x: usize|
                        x < c && #[trigger] is_candidate(pts.len(), s, d, x) && !ranked@.contains(x) && x
                            != t.0 ==> ranks_before(pts, s, d, t.0, x)
                },
                best is None ==> forall|x: usize|
                    x < c && #[trigger] is_candidate(pts.len(), s, d, x) ==> ranked@.contains(x),
            decreases n - c,
        {
            if c != s && c != d && !taken[c] {
                proof {
                    lemma_distance_bound(pts[s as int], pts[c as int]);
                    lemma_distance_bound(pts[d as int], pts[c as int]);
                    lemma_distance_symmetric(pts[d as int], pts[c as int]);
                }
                let cost: u64 = rows[0][c] + rows[1][c];
                assert(cost == detour(pts, s, c, d));
                let better = match best {
                    None => true,
                    Some(t) => cost < t.1,
                };
                if better {
                    best = Some((c, cost));
                }
            }
            c += 1;
        }
        proof {
            lemma_unused_node_exists(n as nat, ranked@.push(s).push(d));
            let longer = ranked@.push(s).push(d);
            let c0 = choose|c: usize| c < n && !longer.contains(c);
            assert(longer[j as int] == s);
            assert(longer[j + 1] == d);
            assert(is_candidate(pts.len(), s, d, c0));
            if ranked@.contains(c0) {
                let t = choose|t: int| 0 <= t < ranked@.len() && ranked@[t] == c0;
                assert(longer[t] == c0);
            }
        }
        let b = match best {
            Some(t) => t.0,
            None => 0,
        };
        let ghost before = ranked@;
        ranked.push(b);
        taken.set(b, true);
        proof {
            let after = ranked@;
            assert forall|x: usize| after.contains(x) <==> (x == b || before.contains(x)) by {
                if after.contains(x) {
                    let t = choose|t: int| 0 <= t < after.len() && after[t] == x;
                    if t < before.len() {
                        assert(before[t] == x);
                    }
                }
                if before.contains(x) {
                    let t = choose|t: int| 0 <= t < before.len() && before[t] == x;
                    assert(after[t] == x);
                }
                if x == b {
                    assert(after[j as int] == b);
                }
            }
            assert forall|i: int, t: int| 0 <= i < t < after.len() implies ranks_before(
                pts,
                s,
                d,
                #[trigger] after[i],
                #[trigger] after[t],
            ) by {
                if t < j {
                    assert(ranks_before(pts, s, d, before[i], before[t]));
                } else {
                    assert(ranks_before(pts, s, d, before[i], b));
                }
            }
            assert forall|x: usize, i: int|
                is_candidate(pts.len(), s, d, x) && !after.contains(x) && 0 <= i < after.len()
                    implies #[trigger] ranks_before(pts, s, d, after[i], x) by {
                if i < j {
                    assert(ranks_before(pts, s, d, before[i], x));
                }
            }
        }
        j += 1;
    }
    ranked
}

impl Graph {
    /// What the fast variant keeps of the graph: the `k` best candidates are
    /// ranked, and the route is grown in the graph of source, destination
    /// and those candidates.
    pub open spec fn is_fast_route(self, s: usize, d: usize, k: usize, points: Seq<Point>) -> bool {
        exists|ranked: Seq<usize>|
            {
                &&& #[trigger] is_ranking(self.nodes@, s, d, ranked)
                &&& ranked.len() == k
                &&& points == points_of(
                    reduced_nodes(self.nodes@, s, d, ranked),
                    greedy_route(reduced_nodes(self.nodes@, s, d, ranked), 0, 1, k as nat),
                )
            }
    }

    /// The candidate preprocessor.
    ///
    /// When the request is feasible, weighs every node but the two ends by
    /// its distance from the source plus its distance to the destination
    /// and returns the positions of the `k` nodes of least weight, the
    /// lightest first and, of equal weights, the earlier node first.
    pub fn preprocess_candidates(&self, source: &Point, destination: &Point, k: usize) -> (r: Option<
        Vec<usize>,
    >)
        ensures
            r.is_some() == self.spec_feasible(*source, *destination, k),
            r matches Some(ranked) ==> {
                &&& ranked@.len() == k
                &&& is_ranking(
                    self.nodes@,
                    first_index(self.nodes@, *source) as usize,
                    first_index(self.nodes@, *destination) as usize,
                    ranked@,
                )
            },
    {
        let (s, d) = match self.locate(source, destination, k) {
            Some(ends) => ends,
            None => {
                return None;
            },
        };
        let ranked = self.rank_between(s, d, k);
        Some(ranked)
    }

    /// Ranks the candidates between node `s` and node `d` by the table of
    /// the distances from those two, and keeps the first `k`.
    pub fn rank_between(&self, s: usize, d: usize, k: usize) -> (ranked: Vec<usize>)
        requires
            s < self.nodes@.len(),
            d < self.nodes@.len(),
            k + 2 <= self.nodes@.len(),
        ensures
            ranked@.len() == k,
            is_ranking(self.nodes@, s, d, ranked@),
    {
        let nodes = make_nodes(&self.nodes);
        let mut anchors: Vec<MapNode> = Vec::new();
        anchors.push(nodes[s]);
        anchors.push(nodes[d]);
        let rows = distance_index(&nodes, &anchors);
        proof {
            assert(is_distance_index(rows@, anchors@, nodes@));
            assert(anchors@[0].node == self.nodes@[s as int]);
            assert(anchors@[1].node == self.nodes@[d as int]);
            assert forall|c: int| 0 <= c < self.nodes@.len() implies #[trigger] rows@[0]@[c]
                == self.nodes@[s as int].spec_distance_to(self.nodes@[c]) by {
                assert(nodes@[c].node == self.nodes@[c]);
            }
            assert forall|c: int| 0 <= c < self.nodes@.len() implies #[trigger] rows@[1]@[c]
                == self.nodes@[d as int].spec_distance_to(self.nodes@[c]) by {
                assert(nodes@[c].node == self.nodes@[c]);
            }
        }
        rank_candidates(&rows, s, d, k, Ghost(self.nodes@))
    }

    /// The graph of the source, the destination and the ranked candidates.
    pub fn reduced(&self, s: usize, d: usize, ranked: &Vec<usize>) -> (g: Graph)
        requires
            s < self.nodes@.len(),
            d < self.nodes@.len(),
            forall|i: int| 0 <= i < ranked@.len() ==> #[trigger] ranked@[i] < self.nodes@.len(),
        ensures
            g.nodes@ == reduced_nodes(self.nodes@, s, d, ranked@),
    {
        let mut nodes: Vec<Point> = Vec::new();
        nodes.push(self.nodes[s]);
        nodes.push(self.nodes[d]);
        let mut i: usize = 0;
        while i < ranked.len()
            invariant
                i <= ranked@.len(),
                s < self.nodes@.len(),
                d < self.nodes@.len(),
                forall|t: int| 0 <= t < ranked@.len() ==> #[trigger] ranked@[t] < self.nodes@.len(),
                nodes@.len() == i + 2,
                nodes@[0] == self.nodes@[s as int],
                nodes@[1] == self.nodes@[d as int],
                forall|t: int| 0 <= t < i ==> #[trigger] nodes@[t + 2] == self.nodes@[ranked@[t] as int],
            decreases ranked@.len() - i,
        {
            nodes.push(self.nodes[ranked[i]]);
            i += 1;
        }
        proof {
            let want = reduced_nodes(self.nodes@, s, d, ranked@);
            assert(nodes@.len() == want.len());
            assert forall|t: int| 0 <= t < nodes@.len() implies nodes@[t] == want[t] by {
                if t >= 2 {
                    assert(nodes@[(t - 2) + 2] == self.nodes@[ranked@[t - 2] as int]);
                }
            }
            assert(nodes@ =~= want);
        }
        Graph { nodes }
    }

    /// The fast variant of the greedy constructor.
    ///
    /// When the request is feasible, keeps the `k` best candidates of the
    /// preprocessor, and returns the route that the greedy constructor grows
    /// in the graph of source, destination and those candidates, with its
    /// length; otherwise `None`.
    pub fn find_shortest_path_with_intermediate_points_fast(
        &self,
        source: &Point,
        destination: &Point,
        k: usize,
    ) -> (r: Option<Path>)
        ensures
            r.is_some() == self.spec_feasible(*source, *destination, k),
            r matches Some(p) ==> {
                &&& self.is_fast_route(
                    first_index(self.nodes@, *source) as usize,
                    first_index(self.nodes@, *destination) as usize,
                    k,
                    p.points@,
                )
                &&& p.length == route_length(p.points@)
                &&& is_path_between(self.nodes@, p.points@, *source, *destination, k as nat)
            },
    {
        let (s, d) = match self.locate(source, destination, k) {
            Some(ends) => ends,
            None => {
                return None;
            },
        };
        let ranked = self.rank_between(s, d, k);
        let small = self.reduced(s, d, &ranked);
        let route = small.greedy_insertion(0, 1, k);
        let ghost ids = route.ids();
        let p = route.into_path();
        proof {
            assert(is_ranking(self.nodes@, s, d, ranked@));
            assert(self.is_fast_route(s, d, k, p.points@));
            lemma_reduced_route_points(self.nodes@, s, d, ranked@, ids);
        }
        Some(p)
    }
}

/// The points of a simple route through the reduced graph form a path
/// between source and destination in the whole graph.
pub proof fn lemma_reduced_route_points(pts: Seq<Point>, s: usize, d: usize, ranked: Seq<usize>, ids: Seq<usize>)
    requires
        s < pts.len(),
        d < pts.len(),
        is_ranking(pts, s, d, ranked),
        is_simple_route(ranked.len() + 2, ids, 0, 1),
        ids.len() == ranked.len() + 2,
    ensures
        is_path_between(
            pts,
            points_of(reduced_nodes(pts, s, d, ranked), ids),
            pts[s as int],
            pts[d as int],
            ranked.len(),
        ),
{
    let k = ranked.len() as int;
    let small = reduced_nodes(pts, s, d, ranked);
    let points = points_of(small, ids);
    let inner = intermediates(ids);
    assert(small.len() == k + 2);
    assert(small[0] == pts[s as int]);
    assert(small[1] == pts[d as int]);
    assert forall|t: int| 2 <= t < k + 2 implies small[t] == pts[ranked[t - 2] as int] by {}
    assert forall|i: int| 1 <= i <= k implies 2 <= #[trigger] ids[i] < k + 2 by {
        assert(inner[i - 1] == ids[i]);
        assert(ids[i] < k + 2);
    }
    assert forall|i: int| 0 <= i < k + 2 implies pts.contains(#[trigger] points[i]) by {
        assert(ids[i] < k + 2);
        let t = ids[i] as int;
        if t >= 2 {
            assert(is_candidate(pts.len(), s, d, ranked[t - 2]));
        }
    }
    if pts.no_duplicates() {
        assert forall|i: int| 1 <= i <= k implies #[trigger] points[i] != pts[s as int] && points[i]
            != pts[d as int] by {
            let t = ids[i] as int;
            assert(2 <= ids[i] < k + 2);
            assert(is_candidate(pts.len(), s, d, ranked[t - 2]));
        }
        assert forall|i: int, j: int| 1 <= i < j <= k implies points[i] != points[j] by {
            let a = ids[i] as int;
            let b = ids[j] as int;
            assert(2 <= ids[i] < k + 2);
            assert(2 <= ids[j] < k + 2);
            assert(inner[i - 1] == ids[i]);
            assert(inner[j - 1] == ids[j]);
            assert(a != b);
            assert(is_candidate(pts.len(), s, d, ranked[a - 2]));
            assert(is_candidate(pts.len(), s, d, ranked[b - 2]));
            if a < b {
                assert(ranks_before(pts, s, d, ranked[a - 2], ranked[b - 2]));
            } else {
                assert(ranks_before(pts, s, d, ranked[b - 2], ranked[a - 2]));
            }
        }
    }
}

/// With at most one node between the ends, the fast variant grows the
/// very route of the greedy constructor, ties or none.
pub proof fn lemma_fast_equals_direct_up_to_one(
    graph: Graph,
    source: Point,
    destination: Point,
    k: usize,
    fast: Path,
    direct: Path,
)
    requires
        k <= 1,
        graph.spec_feasible(source, destination, k),
        graph.is_fast_route(
            first_index(graph.nodes@, source) as usize,
            first_index(graph.nodes@, destination) as usize,
            k,
            fast.points@,
        ),
        fast.length == route_length(fast.points@),
        graph.is_greedy_result(source, destination, k, Some(direct)),
    ensures
        fast.points@ == direct.points@,
        fast.length >= direct.length,
{
    let pts = graph.nodes@;
    lemma_first_index_exists(pts, source);
    lemma_first_index_exists(pts, destination);
    let s = first_index(pts, source) as usize;
    let d = first_index(pts, destination) as usize;
    let ranked = choose|ranked: Seq<usize>|
        {
            &&& #[trigger] is_ranking(pts, s, d, ranked)
            &&& ranked.len() == k
            &&& fast.points@ == points_of(
                reduced_nodes(pts, s, d, ranked),
                greedy_route(reduced_nodes(pts, s, d, ranked), 0, 1, k as nat),
            )
        };
    let small = reduced_nodes(pts, s, d, ranked);
    let ends = seq![s, d];
    let small_ends = seq![0usize, 1usize];
    assert(greedy_route(pts, s, d, 0) == ends);
    assert(greedy_route(small, 0, 1, 0) == small_ends);
    if k == 0 {
        assert(fast.points@ =~= direct.points@);
    } else {
        let c = ranked[0];
        assert(is_candidate(pts.len(), s, d, c));
        assert(small.len() == 3);
        assert(small[2] == pts[c as int]);
        assert(!small_ends.contains(2usize));
        assert forall|e2: int, c2: usize| #[trigger] is_insertion(3, small_ends, e2, c2) implies insertion_precedes(
            small,
            small_ends,
            0,
            2,
            e2,
            c2,
        ) by {
            if c2 == 0 {
                assert(small_ends[0] == c2);
            }
            if c2 == 1 {
                assert(small_ends[1] == c2);
            }
        }
        assert(is_insertion(small.len(), small_ends, 0, 2));
        lemma_best_insertion_is(small, small_ends, 0, 2);
        assert(!ends.contains(c));
        assert forall|e2: int, c2: usize| #[trigger] is_insertion(pts.len(), ends, e2, c2) implies insertion_precedes(
            pts,
            ends,
            0,
            c,
            e2,
            c2,
        ) by {
            if c2 == s {
                assert(ends[0] == c2);
            }
            if c2 == d {
                assert(ends[1] == c2);
            }
            assert(is_candidate(pts.len(), s, d, c2));
            if c2 != c {
                assert(!ranked.contains(c2));
                assert(ranks_before(pts, s, d, ranked[0], c2));
            }
        }
        assert(is_insertion(pts.len(), ends, 0, c));
        lemma_best_insertion_is(pts, ends, 0, c);
        assert(greedy_route(pts, s, d, 1) == ends.insert(1, c));
        assert(greedy_route(small, 0, 1, 1) == small_ends.insert(1, 2usize));
        assert(fast.points@ =~= direct.points@);
    }
}

/// The node of the whole graph that a node of the reduced graph stands
/// for.
pub open spec fn kept_node(s: usize, d: usize, ranked: Seq<usize>, t: usize) -> usize {
    if t == 0 {
        s
    } else if t == 1 {
        d
    } else {
        ranked[t - 2]
    }
}

/// A route through the reduced graph, told in the nodes of the whole one.
pub open spec fn lifted(s: usize, d: usize, ranked: Seq<usize>, route: Seq<usize>) -> Seq<usize> {
    Seq::new(route.len(), |i: int| kept_node(s, d, ranked, route[i]))
}

/// Putting `c` on the edge at `e` is preferred to every other insertion,
/// and no other node makes the same detour on that edge.
pub open spec fn is_untied_insertion(pts: Seq<Point>, route: Seq<usize>, e: int, c: usize) -> bool {
    &&& is_best_insertion(pts, route, e, c)
    &&& forall|c2: usize| #[trigger]
        is_insertion(pts.len(), route, e, c2) && c2 != c ==> insertion_cost(pts, route, e, c)
            < insertion_cost(pts, route, e, c2)
}

/// The first `k` insertions of the greedy constructor are untied and put
/// ranked candidates on the route: the preprocessor keeps every node of
/// the direct route.
pub open spec fn keeps_direct_route(pts: Seq<Point>, s: usize, d: usize, k: nat, ranked: Seq<usize>) -> bool {
    forall|j: nat|
        j < k ==> is_untied_insertion(
            pts,
            #[trigger] greedy_route(pts, s, d, j),
            best_insertion(pts, greedy_route(pts, s, d, j)).0,
            best_insertion(pts, greedy_route(pts, s, d, j)).1,
        ) && ranked.contains(best_insertion(pts, greedy_route(pts, s, d, j)).1)
}

/// A ranking lists no node twice.
pub proof fn lemma_ranking_distinct(pts: Seq<Point>, s: usize, d: usize, ranked: Seq<usize>, i: int, j: int)
    requires
        is_ranking(pts, s, d, ranked),
        0 <= i < ranked.len(),
        0 <= j < ranked.len(),
        ranked[i] == ranked[j],
    ensures
        i == j,
{
    if i < j {
        assert(ranks_before(pts, s, d, ranked[i], ranked[j]));
    } else if j < i {
        assert(ranks_before(pts, s, d, ranked[j], ranked[i]));
    }
}

/// Where the preprocessor keeps every node of the direct route, the route
/// that grows in the reduced graph is, step by step, the direct route.
pub proof fn lemma_reduced_follows_direct(pts: Seq<Point>, s: usize, d: usize, ranked: Seq<usize>, j: nat)
    requires
        s < pts.len(),
        d < pts.len(),
        is_ranking(pts, s, d, ranked),
        j <= ranked.len(),
        ranked.len() + 2 <= usize::MAX,
        keeps_direct_route(pts, s, d, j, ranked),
    ensures
        greedy_route(reduced_nodes(pts, s, d, ranked), 0, 1, j).len() == j + 2,
        greedy_route(reduced_nodes(pts, s, d, ranked), 0, 1, j)[0] == 0,
        greedy_route(reduced_nodes(pts, s, d, ranked), 0, 1, j)[j as int + 1] == 1,
        forall|i: int|
            0 <= i < j + 2 ==> #[trigger] greedy_route(reduced_nodes(pts, s, d, ranked), 0, 1, j)[i]
                < ranked.len() + 2,
        lifted(s, d, ranked, greedy_route(reduced_nodes(pts, s, d, ranked), 0, 1, j)) == greedy_route(
            pts,
            s,
            d,
            j,
        ),
    decreases j,
{
    let small = reduced_nodes(pts, s, d, ranked);
    let count = ranked.len();
    if j == 0 {
        assert(lifted(s, d, ranked, seq![0usize, 1usize]) =~= seq![s, d]);
    } else {
        let before = (j - 1) as nat;
        assert(keeps_direct_route(pts, s, d, before, ranked)) by {
            assert forall|i: nat| i < before implies is_untied_insertion(
                pts,
                #[trigger] greedy_route(pts, s, d, i),
                best_insertion(pts, greedy_route(pts, s, d, i)).0,
                best_insertion(pts, greedy_route(pts, s, d, i)).1,
            ) && ranked.contains(best_insertion(pts, greedy_route(pts, s, d, i)).1) by {
                assert(i < j);
            }
        }
        lemma_reduced_follows_direct(pts, s, d, ranked, before);
        let low = greedy_route(small, 0, 1, before);
        let high = greedy_route(pts, s, d, before);
        assert(lifted(s, d, ranked, low) == high);
        assert(low.len() == high.len());
        let b = best_insertion(pts, high);
        let e = b.0;
        let c = b.1;
        assert(before < j);
        assert(is_untied_insertion(pts, high, e, c) && ranked.contains(c));
        let at = choose|at: int| 0 <= at < ranked.len() && ranked[at] == c;
        let t = (at + 2) as usize;
        assert(kept_node(s, d, ranked, t) == c);
        assert(small.len() == count + 2);
        assert forall|x: usize| x < count + 2 implies #[trigger] small[x as int] == pts[kept_node(
            s,
            d,
            ranked,
            x,
        ) as int] by {}
        assert forall|p: int| 0 <= p < low.len() implies high[p] == kept_node(s, d, ranked, #[trigger] low[p]) by {}
        // the node is free in the reduced graph
        assert(!low.contains(t)) by {
            if low.contains(t) {
                let p = choose|p: int| 0 <= p < low.len() && low[p] == t;
                assert(high[p] == c);
            }
        }
        assert(is_insertion(small.len(), low, e, t));
        assert(insertion_cost(small, low, e, t) == insertion_cost(pts, high, e, c)) by {
            assert(low[e] < count + 2);
            assert(low[e + 1] < count + 2);
        }
        assert forall|e2: int, t2: usize| #[trigger] is_insertion(small.len(), low, e2, t2) implies insertion_precedes(
            small,
            low,
            e,
            t,
            e2,
            t2,
        ) by {
            assert(low[0] == 0);
            assert(low[before as int + 1] == 1);
            assert(t2 >= 2);
            let c2 = ranked[t2 - 2];
            assert(kept_node(s, d, ranked, t2) == c2);
            assert(is_candidate(pts.len(), s, d, c2));
            assert(!high.contains(c2)) by {
                if high.contains(c2) {
                    let p = choose|p: int| 0 <= p < high.len() && high[p] == c2;
                    assert(high[p] == kept_node(s, d, ranked, low[p]));
                    assert(low[p] < count + 2);
                    if low[p] >= 2 {
                        lemma_ranking_distinct(pts, s, d, ranked, low[p] - 2, t2 - 2);
                        assert(low[p] == t2);
                    }
                }
            }
            assert(is_insertion(pts.len(), high, e2, c2));
            assert(insertion_precedes(pts, high, e, c, e2, c2));
            assert(insertion_cost(small, low, e2, t2) == insertion_cost(pts, high, e2, c2)) by {
                assert(low[e2] < count + 2);
                assert(low[e2 + 1] < count + 2);
            }
            if e2 == e && insertion_cost(pts, high, e, c) == insertion_cost(pts, high, e2, c2) {
                if c2 != c {
                    assert(is_insertion(pts.len(), high, e, c2));
                } else {
                    lemma_ranking_distinct(pts, s, d, ranked, at, t2 - 2);
                }
            }
        }
        lemma_best_insertion_is(small, low, e, t);
        let grown = low.insert(e + 1, t);
        assert(greedy_route(small, 0, 1, j) == grown);
        assert(greedy_route(pts, s, d, j) == high.insert(e + 1, c));
        assert(lifted(s, d, ranked, grown) =~= high.insert(e + 1, c));
        assert(grown[0] == 0);
        assert(grown[j as int + 1] == 1);
        assert forall|i: int| 0 <= i < j + 2 implies #[trigger] grown[i] < count + 2 by {
            if i < e + 1 {
                assert(grown[i] == low[i]);
            } else if i > e + 1 {
                assert(grown[i] == low[i - 1]);
            }
        }
    }
}

/// The fast variant's route is not shorter than the greedy constructor's
/// where both grow the same route: with at most one node between the ends,
/// and where the preprocessor keeps every node of the direct route and no
/// two nodes tie on an edge.
///
/// In general the bound fails: the greedy constructor weighs a node by its
/// detour and not by what it adds to the route, so a route grown among
/// fewer nodes can come out shorter.
pub proof fn lemma_fast_not_shorter(
    graph: Graph,
    source: Point,
    destination: Point,
    k: usize,
    fast: Path,
    direct: Path,
)
    requires
        graph.spec_feasible(source, destination, k),
        graph.is_fast_route(
            first_index(graph.nodes@, source) as usize,
            first_index(graph.nodes@, destination) as usize,
            k,
            fast.points@,
        ),
        fast.length == route_length(fast.points@),
        graph.is_greedy_result(source, destination, k, Some(direct)),
        k <= 1 || forall|ranked: Seq<usize>| #[trigger]
            is_ranking(
                graph.nodes@,
                first_index(graph.nodes@, source) as usize,
                first_index(graph.nodes@, destination) as usize,
                ranked,
            ) && ranked.len() == k ==> keeps_direct_route(
                graph.nodes@,
                first_index(graph.nodes@, source) as usize,
                first_index(graph.nodes@, destination) as usize,
                k as nat,
                ranked,
            ),
    ensures
        fast.points@ == direct.points@,
        fast.length >= direct.length,
{
    if k <= 1 {
        lemma_fast_equals_direct_up_to_one(graph, source, destination, k, fast, direct);
    } else {
        let pts = graph.nodes@;
        lemma_first_index_exists(pts, source);
        lemma_first_index_exists(pts, destination);
        let s = first_index(pts, source) as usize;
        let d = first_index(pts, destination) as usize;
        let ranked = choose|ranked: Seq<usize>|
            {
                &&& #[trigger] is_ranking(pts, s, d, ranked)
                &&& ranked.len() == k
                &&& fast.points@ == points_of(
                    reduced_nodes(pts, s, d, ranked),
                    greedy_route(reduced_nodes(pts, s, d, ranked), 0, 1, k as nat),
                )
            };
        let small = reduced_nodes(pts, s, d, ranked);
        assert(pts.len() == graph.nodes.len());
        lemma_reduced_follows_direct(pts, s, d, ranked, k as nat);
        let low = greedy_route(small, 0, 1, k as nat);
        let high = greedy_route(pts, s, d, k as nat);
        assert forall|i: int| 0 <= i < low.len() implies points_of(small, low)[i] == points_of(pts, high)[i] by {
            assert(low[i] < ranked.len() + 2);
            assert(high[i] == kept_node(s, d, ranked, low[i]));
        }
        assert(fast.points@ =~= direct.points@);
    }
}

} // verus!
