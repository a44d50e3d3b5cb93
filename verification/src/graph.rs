//! The complete graph of points, its indexed nodes, routes through it and
//! the table of distances that the path constructors read.

use vstd::prelude::*;
use crate::data::Point;
use crate::data::lemma_distance_bound;

verus! {

/// A complete graph of points: every two nodes are joined by an edge whose
/// weight is their distance.
#[derive(Debug, Clone)]
pub struct Graph {
    pub nodes: Vec<Point>,
}

/// A point together with its position in the graph's node list.
#[derive(Debug, Clone, Copy)]
pub struct MapNode {
    pub id: usize,
    pub node: Point,
}

/// A route given by indexed nodes, with its length.
#[derive(Debug, Clone)]
pub struct MapPath {
    pub nodes: Vec<MapNode>,
    pub length: u128,
}

/// A route given by its points, with its length.
#[derive(Debug, Clone)]
pub struct Path {
    pub points: Vec<Point>,
    pub length: u128,
}

/// The sum of the distances between consecutive points of a route.
pub open spec fn route_length(points: Seq<Point>) -> nat
    decreases points.len(),
{
    if points.len() < 2 {
        0
    } else {
        route_length(points.drop_last()) + points[points.len() - 2].spec_distance_to(
            points[points.len() - 1],
        )
    }
}

/// The points that a route of node positions passes through.
pub open spec fn points_of(pts: Seq<Point>, route: Seq<usize>) -> Seq<Point> {
    Seq::new(route.len(), |i: int| pts[route[i] as int])
}

/// `i` is the first position at which `p` stands in `pts`.
pub open spec fn is_first_index(pts: Seq<Point>, p: Point, i: int) -> bool {
    &&& 0 <= i < pts.len()
    &&& pts[i] == p
    &&& forall|j: int| 0 <= j < i ==> pts[j] != p
}

/// The first position at which `p` stands in `pts`.
pub open spec fn first_index(pts: Seq<Point>, p: Point) -> int {
    choose|i: int| is_first_index(pts, p, i)
}

/// `rows` holds, for each anchor, its distances to all nodes.
pub open spec fn is_distance_index(rows: Seq<Vec<u64>>, anchors: Seq<MapNode>, nodes: Seq<MapNode>) -> bool {
    &&& rows.len() == anchors.len()
    &&& forall|a: int| 0 <= a < rows.len() ==> (#[trigger] rows[a])@.len() == nodes.len()
    &&& forall|a: int, j: int|
        0 <= a < rows.len() && 0 <= j < nodes.len() ==> #[trigger] rows[a]@[j]
            == anchors[a].node.spec_distance_to(nodes[j].node)
}

/// The nodes of a route strictly between its two ends.
pub open spec fn intermediates(route: Seq<usize>) -> Seq<usize> {
    route.subrange(1, route.len() - 1)
}

/// A route of node positions from `s` to `d` whose intermediate nodes are
/// nodes of the graph, differ from both ends and occur once each.
pub open spec fn is_simple_route(n: nat, route: Seq<usize>, s: usize, d: usize) -> bool {
    &&& route.len() >= 2
    &&& route[0] == s
    &&& route[route.len() - 1] == d
    &&& forall|i: int| 0 <= i < route.len() ==> #[trigger] route[i] < n
    &&& intermediates(route).no_duplicates()
    &&& !intermediates(route).contains(s)
    &&& !intermediates(route).contains(d)
}

/// `rows` holds the distance of every two nodes, by their positions.
pub open spec fn is_full_index(rows: Seq<Vec<u64>>, pts: Seq<Point>) -> bool {
    &&& rows.len() == pts.len()
    &&& forall|a: int| 0 <= a < rows.len() ==> (#[trigger] rows[a])@.len() == pts.len()
    &&& forall|a: int, j: int|
        0 <= a < pts.len() && 0 <= j < pts.len() ==> #[trigger] rows[a]@[j]
            == pts[a].spec_distance_to(pts[j])
}

/// The points of a route from `source` to `destination` with `k` nodes of
/// the graph between them; where the graph holds no point twice, none of
/// the `k` is an end point and no two of them are the same.
pub open spec fn is_path_between(
    nodes: Seq<Point>,
    points: Seq<Point>,
    source: Point,
    destination: Point,
    k: nat,
) -> bool {
    &&& points.len() == k + 2
    &&& points[0] == source
    &&& points[k as int + 1] == destination
    &&& forall|i: int| 0 <= i < k + 2 ==> nodes.contains(#[trigger] points[i])
    &&& nodes.no_duplicates() ==> forall|i: int|
        1 <= i <= k ==> #[trigger] points[i] != source && points[i] != destination
    &&& nodes.no_duplicates() ==> forall|i: int, j: int|
        1 <= i < j <= k ==> points[i] != points[j]
}

/// A point has at most one first position.
pub proof fn lemma_first_index_is(pts: Seq<Point>, p: Point, i: int)
    requires
        is_first_index(pts, p, i),
    ensures
        first_index(pts, p) == i,
{
    let j = first_index(pts, p);
    assert(is_first_index(pts, p, j));
    if j < i {
        assert(pts[j] != p);
    } else if i < j {
        assert(pts[i] != p);
    }
}

/// A point that stands in `pts` has a first position there.
pub proof fn lemma_first_index_exists(pts: Seq<Point>, p: Point)
    requires
        pts.contains(p),
    ensures
        is_first_index(pts, p, first_index(pts, p)),
{
    pts.index_of_first_ensures(p);
    let i = pts.index_of_first(p).unwrap();
    assert(is_first_index(pts, p, i));
}

/// A route of `n` points is shorter than `n` times the largest distance.
pub proof fn lemma_route_length_bound(points: Seq<Point>)
    ensures
        route_length(points) <= points.len() * 0x2_0000_0000,
    decreases points.len(),
{
    if points.len() >= 2 {
        lemma_route_length_bound(points.drop_last());
        lemma_distance_bound(points[points.len() - 2], points[points.len() - 1]);
    }
}

/// A route grows by the distance from its last point to the point that joins.
pub proof fn lemma_route_length_push(points: Seq<Point>, p: Point)
    requires
        points.len() >= 1,
    ensures
        route_length(points.push(p)) == route_length(points) + points[points.len() - 1].spec_distance_to(
            p,
        ),
{
    let longer = points.push(p);
    assert(longer.drop_last() =~= points);
    assert(longer[longer.len() - 2] == points[points.len() - 1]);
}

/// Putting a point between two neighbours of a route replaces their edge by
/// the two edges through the new point.
pub proof fn lemma_route_length_insert(points: Seq<Point>, i: int, p: Point)
    requires
        0 < i < points.len(),
    ensures
        route_length(points.insert(i, p)) + points[i - 1].spec_distance_to(points[i])
            == route_length(points) + points[i - 1].spec_distance_to(p) + p.spec_distance_to(
            points[i],
        ),
    decreases points.len(),
{
    let longer = points.insert(i, p);
    let n = points.len() as int;
    let shorter = points.drop_last();
    assert(longer.len() == n + 1);
    assert(longer[n] == points[n - 1]);
    assert(route_length(points) == route_length(shorter) + points[n - 2].spec_distance_to(
        points[n - 1],
    ));
    assert(route_length(longer) == route_length(longer.drop_last()) + longer[n - 1].spec_distance_to(
        longer[n],
    ));
    if i == n - 1 {
        assert(longer[n - 1] == p);
        let front = longer.drop_last();
        assert(front =~= shorter.push(p));
        assert(front.drop_last() =~= shorter);
        assert(front[front.len() - 2] == points[n - 2]);
        assert(front[front.len() - 1] == p);
        assert(route_length(front) == route_length(front.drop_last()) + front[front.len()
            - 2].spec_distance_to(front[front.len() - 1]));
    } else {
        assert(longer[n - 1] == points[n - 2]);
        assert(longer.drop_last() =~= shorter.insert(i, p));
        assert(shorter[i - 1] == points[i - 1]);
        assert(shorter[i] == points[i]);
        lemma_route_length_insert(shorter, i, p);
    }
}

/// A list of fewer than `n` node positions leaves one below `n` out.
pub proof fn lemma_unused_node_exists(n: nat, route: Seq<usize>)
    requires
        route.len() < n,
        n <= usize::MAX + 1,
    ensures
        exists|c: usize| c < n && !route.contains(c),
    decreases n,
{
    let top = (n - 1) as usize;
    if route.contains(top) {
        let j = choose|j: int| 0 <= j < route.len() && route[j] == top;
        let rest = route.remove(j);
        lemma_unused_node_exists((n - 1) as nat, rest);
        let c = choose|c: usize| c < n - 1 && !rest.contains(c);
        if route.contains(c) {
            let i = choose|i: int| 0 <= i < route.len() && route[i] == c;
            if i < j {
                assert(rest[i] == c);
            } else {
                assert(i != j);
                assert(rest[i - 1] == c);
            }
        }
        assert(c < n && !route.contains(c));
    } else {
        assert(top < n && !route.contains(top));
    }
}

/// After an insertion a route holds the new node and what it held before.
pub proof fn lemma_insert_contains(route: Seq<usize>, i: int, c: usize, x: usize)
    requires
        0 <= i <= route.len(),
    ensures
        route.insert(i, c).contains(x) <==> (x == c || route.contains(x)),
{
    let longer = route.insert(i, c);
    if longer.contains(x) {
        let j = choose|j: int| 0 <= j < longer.len() && longer[j] == x;
        if j < i {
            assert(route[j] == x);
        } else if j > i {
            assert(route[j - 1] == x);
        }
    }
    if x == c {
        assert(longer[i] == c);
    }
    if route.contains(x) {
        let j = choose|j: int| 0 <= j < route.len() && route[j] == x;
        if j < i {
            assert(longer[j] == x);
        } else {
            assert(longer[j + 1] == x);
        }
    }
}

/// The points of a simple route of node positions form such a path.
pub proof fn lemma_simple_route_points(pts: Seq<Point>, ids: Seq<usize>, s: usize, d: usize, k: nat)
    requires
        is_simple_route(pts.len(), ids, s, d),
        ids.len() == k + 2,
    ensures
        is_path_between(pts, points_of(pts, ids), pts[s as int], pts[d as int], k),
{
    let points = points_of(pts, ids);
    let inner = intermediates(ids);
    assert forall|i: int| 0 <= i < k + 2 implies pts.contains(#[trigger] points[i]) by {
        assert(ids[i] < pts.len());
        assert(points[i] == pts[ids[i] as int]);
    }
    if pts.no_duplicates() {
        assert forall|i: int| 1 <= i <= k implies #[trigger] points[i] != pts[s as int] && points[i]
            != pts[d as int] by {
            assert(inner[i - 1] == ids[i]);
            assert(ids[i] < pts.len());
            assert(ids[i] != s && ids[i] != d);
        }
        assert forall|i: int, j: int| 1 <= i < j <= k implies points[i] != points[j] by {
            assert(inner[i - 1] == ids[i]);
            assert(inner[j - 1] == ids[j]);
            assert(ids[i] < pts.len());
            assert(ids[j] < pts.len());
        }
    }
}

/// Measures a route from scratch: adds up the distances between its
/// consecutive points.
pub fn measure(points: &Vec<Point>) -> (length: u128)
    ensures
        length == route_length(points@),
{
    let n = points.len();
    if n < 2 {
        return 0;
    }
    let mut length: u128 = 0;
    let mut i: usize = 1;
    while i < n
        invariant
            1 <= i <= n,
            n == points@.len(),
            length == route_length(points@.subrange(0, i as int)),
        decreases n - i,
    {
        proof {
            let front = points@.subrange(0, i as int);
            let next = points@.subrange(0, i + 1);
            assert(next.drop_last() =~= front);
            lemma_route_length_bound(front);
            lemma_distance_bound(points@[i - 1], points@[i as int]);
            assert(i * 0x2_0000_0000 <= 0x1_0000_0000_0000_0000 * 0x2_0000_0000) by (nonlinear_arith)
                requires
                    0 <= i <= 0x1_0000_0000_0000_0000,
            ;
        }
        length = length + points[i - 1].distance_to(&points[i]) as u128;
        i += 1;
    }
    assert(points@.subrange(0, n as int) =~= points@);
    length
}

impl Path {
    /// The length of the route, measured from scratch.
    pub fn measured_length(&self) -> (length: u128)
        ensures
            length == route_length(self.points@),
    {
        measure(&self.points)
    }
}

impl MapPath {
    /// The node positions of the route.
    pub open spec fn ids(self) -> Seq<usize> {
        Seq::new(self.nodes@.len(), |i: int| self.nodes@[i].id)
    }

    /// The points of the route.
    pub open spec fn points(self) -> Seq<Point> {
        Seq::new(self.nodes@.len(), |i: int| self.nodes@[i].node)
    }

    /// The route over the nodes at the given positions, with its length.
    pub fn from_route(points: &Vec<Point>, route: &Vec<usize>, length: u128) -> (r: MapPath)
        requires
            forall|t: int| 0 <= t < route@.len() ==> #[trigger] route@[t] < points@.len(),
        ensures
            r.ids() == route@,
            r.points() == points_of(points@, route@),
            r.length == length,
    {
        let mut nodes: Vec<MapNode> = Vec::new();
        let mut i: usize = 0;
        while i < route.len()
            invariant
                i <= route@.len(),
                forall|t: int| 0 <= t < route@.len() ==> #[trigger] route@[t] < points@.len(),
                nodes@.len() == i,
                forall|t: int|
                    0 <= t < i ==> (#[trigger] nodes@[t]).id == route@[t] && nodes@[t].node
                        == points@[route@[t] as int],
            decreases route@.len() - i,
        {
            let id = route[i];
            nodes.push(MapNode { id, node: points[id] });
            i += 1;
        }
        let r = MapPath { nodes, length };
        proof {
            assert(r.ids() =~= route@);
            assert(r.points() =~= points_of(points@, route@));
        }
        r
    }

    /// Gives the route by its points alone.
    pub fn into_path(self) -> (p: Path)
        ensures
            p.points@ == self.points(),
            p.length == self.length,
    {
        let mut points: Vec<Point> = Vec::new();
        let mut i: usize = 0;
        while i < self.nodes.len()
            invariant
                i <= self.nodes@.len(),
                points@.len() == i,
                forall|j: int| 0 <= j < i ==> #[trigger] points@[j] == self.nodes@[j].node,
            decreases self.nodes@.len() - i,
        {
            points.push(self.nodes[i].node);
            i += 1;
        }
        assert(points@ =~= self.points());
        Path { points, length: self.length }
    }
}

impl Default for Graph {
    /// The graph without nodes.
    fn default() -> (g: Graph)
        ensures
            g.nodes@.len() == 0,
    {
        Graph { nodes: Vec::new() }
    }
}

impl Graph {
    /// No two nodes of the graph are the same point.
    pub open spec fn has_unique_nodes(self) -> bool {
        self.nodes@.no_duplicates()
    }

    /// A request is feasible when both end points are nodes of the graph and
    /// the graph holds `k` nodes besides two end points.
    pub open spec fn spec_feasible(self, source: Point, destination: Point, k: usize) -> bool {
        &&& self.nodes@.contains(source)
        &&& self.nodes@.contains(destination)
        &&& k + 2 <= self.nodes@.len()
    }

    /// Tells whether no two nodes are the same point.
    pub fn is_valid(&self) -> (r: bool)
        ensures
            r == self.has_unique_nodes(),
    {
        let n = self.nodes.len();
        let mut i: usize = 0;
        while i < n
            invariant
                i <= n,
                n == self.nodes@.len(),
                forall|a: int, b: int| 0 <= a < i && a < b < n ==> self.nodes@[a] != self.nodes@[b],
            decreases n - i,
        {
            let mut j: usize = i + 1;
            while j < n
                invariant
                    i < j <= n,
                    n == self.nodes@.len(),
                    forall|b: int| i < b < j ==> self.nodes@[i as int] != self.nodes@[b],
                decreases n - j,
            {
                if self.nodes[i] == self.nodes[j] {
                    return false;
                }
                j += 1;
            }
            i += 1;
        }
        true
    }

    /// Makes the graph of the points, unless one of them stands twice.
    pub fn new(nodes: Vec<Point>) -> (r: Option<Graph>)
        ensures
            r.is_some() == nodes@.no_duplicates(),
            r matches Some(graph) ==> graph.nodes@ == nodes@ && graph.has_unique_nodes(),
    {
        let graph = Graph { nodes };
        if graph.is_valid() {
            Some(graph)
        } else {
            None
        }
    }

    /// The first position of `p` among the nodes, if it is one of them.
    pub fn index_of(&self, p: &Point) -> (r: Option<usize>)
        ensures
            r.is_some() == self.nodes@.contains(*p),
            r matches Some(i) ==> is_first_index(self.nodes@, *p, i as int),
    {
        let mut i: usize = 0;
        while i < self.nodes.len()
            invariant
                i <= self.nodes.len(),
                forall|j: int| 0 <= j < i ==> self.nodes@[j] != *p,
            decreases self.nodes.len() - i,
        {
            if self.nodes[i] == *p {
                return Some(i);
            }
            i += 1;
        }
        None
    }

    /// Finds the two ends of a request: where it is feasible, the first
    /// positions of `source` and of `destination` among the nodes.
    pub fn locate(&self, source: &Point, destination: &Point, k: usize) -> (r: Option<(usize, usize)>)
        ensures
            r.is_some() == self.spec_feasible(*source, *destination, k),
            r matches Some(ends) ==> {
                &&& is_first_index(self.nodes@, *source, ends.0 as int)
                &&& is_first_index(self.nodes@, *destination, ends.1 as int)
                &&& ends.0 == first_index(self.nodes@, *source)
                &&& ends.1 == first_index(self.nodes@, *destination)
            },
    {
        let s = match self.index_of(source) {
            Some(s) => s,
            None => {
                return None;
            },
        };
        let d = match self.index_of(destination) {
            Some(d) => d,
            None => {
                return None;
            },
        };
        if self.nodes.len() < 2 || k > self.nodes.len() - 2 {
            return None;
        }
        proof {
            lemma_first_index_is(self.nodes@, *source, s as int);
            lemma_first_index_is(self.nodes@, *destination, d as int);
        }
        Some((s, d))
    }

    /// Tells whether a path with `k` intermediate nodes can be asked for.
    pub fn is_feasible(&self, source: &Point, destination: &Point, k: usize) -> (r: bool)
        ensures
            r == self.spec_feasible(*source, *destination, k),
    {
        self.index_of(source).is_some() && self.index_of(destination).is_some()
            && self.nodes.len() >= 2 && k <= self.nodes.len() - 2
    }
}

/// Numbers the points in the order in which they stand.
pub fn make_nodes(points: &Vec<Point>) -> (nodes: Vec<MapNode>)
    ensures
        nodes@.len() == points@.len(),
        forall|i: int| 0 <= i < nodes@.len() ==> (#[trigger] nodes@[i]).id == i && nodes@[i].node == points@[i],
{
    let mut nodes: Vec<MapNode> = Vec::new();
    let mut i: usize = 0;
    while i < points.len()
        invariant
            i <= points.len(),
            nodes@.len() == i,
            forall|j: int| 0 <= j < i ==> (#[trigger] nodes@[j]).id == j && nodes@[j].node == points@[j],
        decreases points.len() - i,
    {
        nodes.push(MapNode { id: i, node: points[i] });
        i += 1;
    }
    nodes
}

/// The distances from `node` to every node of the list, by position.
pub fn get_all_distances_for_node(nodes: &Vec<MapNode>, node: &MapNode) -> (row: Vec<u64>)
    ensures
        row@.len() == nodes@.len(),
        forall|j: int| 0 <= j < row@.len() ==> #[trigger] row@[j] == node.node.spec_distance_to(nodes@[j].node),
{
    let mut row: Vec<u64> = Vec::new();
    let mut j: usize = 0;
    while j < nodes.len()
        invariant
            j <= nodes.len(),
            row@.len() == j,
            forall|i: int| 0 <= i < j ==> #[trigger] row@[i] == node.node.spec_distance_to(nodes@[i].node),
        decreases nodes.len() - j,
    {
        row.push(node.node.distance_to(&nodes[j].node));
        j += 1;
    }
    row
}

/// Builds the table of distances from each anchor to every node.
pub fn distance_index(nodes: &Vec<MapNode>, anchors: &Vec<MapNode>) -> (rows: Vec<Vec<u64>>)
    ensures
        is_distance_index(rows@, anchors@, nodes@),
{
    let mut rows: Vec<Vec<u64>> = Vec::new();
    let mut a: usize = 0;
    while a < anchors.len()
        invariant
            a <= anchors.len(),
            rows@.len() == a,
            forall|i: int| 0 <= i < a ==> (#[trigger] rows@[i])@.len() == nodes@.len(),
            forall|i: int, j: int|
                0 <= i < a && 0 <= j < nodes@.len() ==> #[trigger] rows@[i]@[j]
                    == anchors@[i].node.spec_distance_to(nodes@[j].node),
        decreases anchors.len() - a,
    {
        let row = get_all_distances_for_node(nodes, &anchors[a]);
        rows.push(row);
        a += 1;
    }
    rows
}

/// Builds the table of the distances of every two points.
pub fn full_distance_index(points: &Vec<Point>) -> (rows: Vec<Vec<u64>>)
    ensures
        is_full_index(rows@, points@),
{
    let nodes = make_nodes(points);
    let rows = distance_index(&nodes, &nodes);
    assert(is_distance_index(rows@, nodes@, nodes@));
    assert forall|a: int, j: int| 0 <= a < points@.len() && 0 <= j < points@.len() implies #[trigger] rows@[a]@[j]
        == points@[a].spec_distance_to(points@[j]) by {
        assert(nodes@[a].node == points@[a]);
        assert(nodes@[j].node == points@[j]);
    }
    rows
}

} // verus!
