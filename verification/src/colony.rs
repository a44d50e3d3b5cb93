//! The ant-colony constructor: generations of ants that walk from source
//! to destination, each step drawn by weights made of a node's desirability
//! and its pheromone.

use vstd::prelude::*;
use crate::data::Point;
use crate::data::lemma_distance_bound;
use crate::fraction::FRACTION_ONE;
use crate::graph::Graph;
use crate::graph::MapPath;
use crate::graph::Path;
use crate::graph::first_index;
use crate::graph::full_distance_index;
use crate::graph::intermediates;
use crate::graph::is_full_index;
use crate::graph::is_path_between;
use crate::graph::is_simple_route;
use crate::graph::lemma_route_length_bound;
use crate::graph::lemma_route_length_push;
use crate::graph::lemma_simple_route_points;
use crate::graph::lemma_unused_node_exists;
use crate::graph::points_of;
use crate::graph::route_length;
use crate::util::Draws;
use crate::weights::PHEROMONE_ONE;
use crate::weights::boosted;
use crate::weights::candidate_weights;
use crate::weights::desirability_table;
use crate::weights::evaporated;
use crate::weights::is_desirability_table;
use crate::weights::is_pheromone;
use crate::weights::lemma_desirability_bound;
use crate::weights::lemma_weight_sum_grows;
use crate::weights::pick_weighted;
use crate::weights::reinforced;
use crate::weights::spec_boosted;
use crate::weights::spec_candidate_weight;
use crate::weights::spec_desirability;
use crate::weights::spec_evaporated;
use crate::weights::spec_pick;
use crate::weights::spec_reinforced;
use crate::weights::total_weight;
use crate::weights::weight_sum;

verus! {

/// The pheromones after ants have stepped on some nodes: those nodes are
/// boosted once, the others are as at the start.
pub open spec fn pheromones_on(start: Seq<u64>, stepped: Seq<usize>) -> Seq<u64> {
    Seq::new(
        start.len(),
        |c: int|
            if stepped.contains(c as usize) {
                spec_boosted(start[c])
            } else {
                start[c]
            },
    )
}

/// Which nodes a route has visited.
pub open spec fn visited_on(n: nat, route: Seq<usize>) -> Seq<bool> {
    Seq::new(n, |c: int| route.contains(c as usize))
}

/// A request to the ant colony, as its formulas see it.
pub struct Request {
    pub points: Seq<Point>,
    pub source: usize,
    pub destination: usize,
    pub k: usize,
    pub alpha: i32,
    pub beta: i32,
}

/// The best route so far as the formulas see it: the positions of its
/// nodes and its length, and the place that the replayed draws have
/// reached. Before any ant has walked the route is empty and the length
/// the largest.
pub struct Progress {
    pub route: Seq<usize>,
    pub length: nat,
    pub next: usize,
}

/// A generation under way: the shortest walk so far, the pheromones, and
/// the place that the replayed draws have reached.
pub struct Swarm {
    pub route: Seq<usize>,
    pub length: nat,
    pub pheromones: Seq<u64>,
    pub next: usize,
}

impl Request {
    /// The desirability of every step that leaves node `u`.
    pub open spec fn desirability_row(self, u: usize) -> Seq<u64> {
        Seq::new(
            self.points.len(),
            |v: int| spec_desirability(self.points, self.destination as int, self.alpha, u as int, v) as u64,
        )
    }

    /// The weights of the draw that follows `route`, for an ant that found
    /// the pheromones `start` when it set out.
    pub open spec fn step_weights(self, start: Seq<u64>, route: Seq<usize>) -> Seq<u64> {
        Seq::new(
            self.points.len(),
            |c: int|
                spec_candidate_weight(
                    self.desirability_row(route.last()),
                    pheromones_on(start, route.drop_first()),
                    self.beta,
                    visited_on(self.points.len(), route),
                    self.destination as int,
                    c,
                ) as u64,
        )
    }

    /// The first `j` steps of an ant that replays `numbers` from the place
    /// `next`: the nodes it has been on, and the place that the replay has
    /// reached. Each step weighs the nodes, takes the next number reduced
    /// by the sum of the weights, and goes where the roulette wheel sends
    /// that draw.
    pub open spec fn walk_steps(self, start: Seq<u64>, numbers: Seq<u128>, next: usize, j: nat) -> (
        Seq<usize>,
        usize,
    )
        decreases j,
    {
        if j == 0 {
            (seq![self.source], next)
        } else {
            let before = self.walk_steps(start, numbers, next, (j - 1) as nat);
            let weights = self.step_weights(start, before.0);
            let total = weight_sum(weights, weights.len() as int);
            let draw = Draws::spec_replayed(numbers, before.1, total as u128);
            (before.0.push(spec_pick(weights, draw)), Draws::spec_advanced(numbers, before.1))
        }
    }

    /// The walk of an ant that replays `numbers` from the place `next`:
    /// `k` steps and then the destination.
    pub open spec fn walk(self, start: Seq<u64>, numbers: Seq<u128>, next: usize) -> (Seq<usize>, usize) {
        (
            self.walk_steps(start, numbers, next, self.k as nat).0.push(self.destination),
            self.walk_steps(start, numbers, next, self.k as nat).1,
        )
    }

    /// A generation after `ants` ants have walked in turn from the
    /// pheromones `start`: each walk boosts the nodes it steps on, and a
    /// walk that is strictly shorter than all before it is the shortest.
    pub open spec fn ants(self, start: Seq<u64>, numbers: Seq<u128>, next: usize, ants: nat) -> Swarm
        decreases ants,
    {
        if ants == 0 {
            Swarm { route: Seq::empty(), length: u128::MAX as nat, pheromones: start, next }
        } else {
            let before = self.ants(start, numbers, next, (ants - 1) as nat);
            let walked = self.walk(before.pheromones, numbers, before.next);
            let length = route_length(points_of(self.points, walked.0));
            let pheromones = pheromones_on(before.pheromones, intermediates(walked.0));
            if length < before.length {
                Swarm { route: walked.0, length, pheromones, next: walked.1 }
            } else {
                Swarm { route: before.route, length: before.length, pheromones, next: walked.1 }
            }
        }
    }

    /// The swarm of a whole generation: `population` ants that set out
    /// from neutral pheromones.
    pub open spec fn swarm(self, numbers: Seq<u128>, next: usize, population: i32) -> Swarm {
        self.ants(
            Seq::new(self.points.len(), |c: int| PHEROMONE_ONE),
            numbers,
            next,
            if population > 0 {
                population as nat
            } else {
                0
            },
        )
    }

    /// The best route after a generation: the generation's shortest walk
    /// where it is strictly shorter than the best route before, else that
    /// route.
    pub open spec fn generation(self, before: Progress, numbers: Seq<u128>, population: i32) -> Progress {
        let swarm = self.swarm(numbers, before.next, population);
        if swarm.length < before.length {
            Progress { route: swarm.route, length: swarm.length, next: swarm.next }
        } else {
            Progress { route: before.route, length: before.length, next: swarm.next }
        }
    }

    /// The pheromones that a generation leaves: those of its swarm after
    /// evaporation, reinforced on the nodes of the best route.
    pub open spec fn generation_pheromones(self, before: Progress, numbers: Seq<u128>, population: i32) -> Seq<
        u64,
    > {
        Seq::new(
            self.points.len(),
            |c: int|
                if self.generation(before, numbers, population).route.contains(c as usize) {
                    spec_reinforced(spec_evaporated(self.swarm(numbers, before.next, population).pheromones[c]))
                } else {
                    spec_evaporated(self.swarm(numbers, before.next, population).pheromones[c])
                },
        )
    }

    /// The best route after `generations` generations of a search that
    /// replays `numbers` from the place `next`.
    pub open spec fn generations(self, numbers: Seq<u128>, next: usize, population: i32, generations: nat) -> Progress
        decreases generations,
    {
        if generations == 0 {
            Progress { route: Seq::empty(), length: u128::MAX as nat, next }
        } else {
            self.generation(
                self.generations(numbers, next, population, (generations - 1) as nat),
                numbers,
                population,
            )
        }
    }
}

/// The best route of a replayed search never gets longer from one
/// generation to a later one.
pub proof fn lemma_best_never_grows(
    request: Request,
    numbers: Seq<u128>,
    next: usize,
    population: i32,
    earlier: nat,
    later: nat,
)
    requires
        earlier <= later,
    ensures
        request.generations(numbers, next, population, later).length <= request.generations(
            numbers,
            next,
            population,
            earlier,
        ).length,
    decreases later,
{
    if earlier < later {
        lemma_best_never_grows(request, numbers, next, population, earlier, (later - 1) as nat);
    }
}

/// The pheromones after ants have walked in turn: each walk boosts the
/// nodes between its ends.
pub open spec fn walked_pheromones(start: Seq<u64>, walks: Seq<Seq<usize>>) -> Seq<u64>
    decreases walks.len(),
{
    if walks.len() == 0 {
        start
    } else {
        pheromones_on(walked_pheromones(start, walks.drop_last()), intermediates(walks.last()))
    }
}

/// The shortest of some walks and its length: the first among equals;
/// the empty route and the largest length where there is no walk.
pub open spec fn shortest_walk(pts: Seq<Point>, walks: Seq<Seq<usize>>) -> (Seq<usize>, nat)
    decreases walks.len(),
{
    if walks.len() == 0 {
        (Seq::empty(), u128::MAX as nat)
    } else if route_length(points_of(pts, walks.last())) < shortest_walk(pts, walks.drop_last()).1 {
        (walks.last(), route_length(points_of(pts, walks.last())))
    } else {
        shortest_walk(pts, walks.drop_last())
    }
}

/// The pheromones that a generation leaves: those that its ants left,
/// evaporated once and then reinforced on the nodes of the best route.
pub open spec fn settled_pheromones(swarm: Seq<u64>, best: Seq<usize>) -> Seq<u64> {
    Seq::new(
        swarm.len(),
        |c: int|
            if best.contains(c as usize) {
                spec_reinforced(spec_evaporated(swarm[c]))
            } else {
                spec_evaporated(swarm[c])
            },
    )
}

/// Where no ant walks, no generation changes the best route or draws.
pub proof fn lemma_no_ants(request: Request, numbers: Seq<u128>, next: usize, population: i32, generations: nat)
    requires
        population < 1 || generations == 0,
    ensures
        request.generations(numbers, next, population, generations) == (Progress {
            route: Seq::empty(),
            length: u128::MAX as nat,
            next,
        }),
    decreases generations,
{
    if generations > 0 {
        lemma_no_ants(request, numbers, next, population, (generations - 1) as nat);
    }
}

/// A route that no ant has walked yet: no nodes, and the largest length.
pub open spec fn is_unset(path: MapPath) -> bool {
    path.nodes@.len() == 0 && path.length == u128::MAX
}

/// A route from node `s` to node `d` over `k` other nodes, none of them
/// twice, with the points of its nodes and its length.
pub open spec fn is_route_of(pts: Seq<Point>, path: MapPath, s: usize, d: usize, k: usize) -> bool {
    &&& path.nodes@.len() == k + 2
    &&& is_simple_route(pts.len(), path.ids(), s, d)
    &&& path.points() == points_of(pts, path.ids())
    &&& path.length == route_length(path.points())
}

/// The state of one search: the graph's points and the two tables made of
/// them, the pheromone of every node, and the best route so far.
#[derive(Debug, Clone)]
pub struct Colony {
    pub points: Vec<Point>,
    pub source: usize,
    pub destination: usize,
    pub k: usize,
    pub alpha: i32,
    pub beta: i32,
    pub distances: Vec<Vec<u64>>,
    pub desirability: Vec<Vec<u64>>,
    pub pheromones: Vec<u64>,
    pub best: MapPath,
}

impl Colony {
    /// The tables belong to the points, every node has a pheromone, and the
    /// best route is either unset or a route of this search.
    pub open spec fn wf(self) -> bool {
        &&& self.source < self.points@.len()
        &&& self.destination < self.points@.len()
        &&& self.k + 2 <= self.points@.len()
        &&& is_full_index(self.distances@, self.points@)
        &&& is_desirability_table(
            self.desirability@,
            self.points@,
            self.destination as int,
            self.alpha,
        )
        &&& self.pheromones@.len() == self.points@.len()
        &&& forall|c: int| 0 <= c < self.pheromones@.len() ==> is_pheromone(#[trigger] self.pheromones@[c])
        &&& (is_unset(self.best) || is_route_of(
            self.points@,
            self.best,
            self.source,
            self.destination,
            self.k,
        ))
    }

    /// The best route so far and the place of the replayed draws, as the
    /// formulas see them.
    pub open spec fn progress(self, next: usize) -> Progress {
        Progress { route: self.best.ids(), length: self.best.length as nat, next }
    }

    /// The request that the search answers.
    pub open spec fn request(self) -> Request {
        Request {
            points: self.points@,
            source: self.source,
            destination: self.destination,
            k: self.k,
            alpha: self.alpha,
            beta: self.beta,
        }
    }

    /// Two states of one search: all but pheromones and best route agree.
    pub open spec fn same_setup(self, other: Colony) -> bool {
        &&& self.points == other.points
        &&& self.source == other.source
        &&& self.destination == other.destination
        &&& self.k == other.k
        &&& self.alpha == other.alpha
        &&& self.beta == other.beta
        &&& self.distances == other.distances
        &&& self.desirability == other.desirability
    }

    /// Sets up a search from node `source` to node `destination` over `k`
    /// other nodes: builds both tables, gives every node the neutral
    /// pheromone and leaves the best route unset.
    pub fn new(graph: &Graph, source: usize, destination: usize, k: usize, alpha: i32, beta: i32) -> (colony:
        Colony)
        requires
            source < graph.nodes@.len(),
            destination < graph.nodes@.len(),
            k + 2 <= graph.nodes@.len(),
        ensures
            colony.wf(),
            colony.points@ == graph.nodes@,
            colony.source == source,
            colony.destination == destination,
            colony.k == k,
            colony.alpha == alpha,
            colony.beta == beta,
            is_unset(colony.best),
            forall|c: int| 0 <= c < colony.pheromones@.len() ==> #[trigger] colony.pheromones@[c] == PHEROMONE_ONE,
    {
        let n = graph.nodes.len();
        let mut points: Vec<Point> = Vec::new();
        let mut pheromones: Vec<u64> = Vec::new();
        let mut i: usize = 0;
        while i < n
            invariant
                i <= n,
                n == graph.nodes@.len(),
                points@.len() == i,
                pheromones@.len() == i,
                forall|j: int| 0 <= j < i ==> #[trigger] points@[j] == graph.nodes@[j],
                forall|j: int| 0 <= j < i ==> #[trigger] pheromones@[j] == PHEROMONE_ONE,
            decreases n - i,
        {
            points.push(graph.nodes[i]);
            pheromones.push(PHEROMONE_ONE);
            i += 1;
        }
        assert(points@ =~= graph.nodes@);
        let distances = full_distance_index(&points);
        let desirability = desirability_table(&distances, destination, alpha, Ghost(points@));
        Colony {
            points,
            source,
            destination,
            k,
            alpha,
            beta,
            distances,
            desirability,
            pheromones,
            best: MapPath { nodes: Vec::new(), length: u128::MAX },
        }
    }

    /// Gives every node the neutral pheromone.
    pub fn reset(&mut self)
        requires
            old(self).wf(),
        ensures
            final(self).wf(),
            final(self).same_setup(*old(self)),
            final(self).best == old(self).best,
            forall|c: int|
                0 <= c < final(self).pheromones@.len() ==> #[trigger] final(self).pheromones@[c]
                    == PHEROMONE_ONE,
    {
        let n = self.pheromones.len();
        let mut c: usize = 0;
        while c < n
            invariant
                c <= n,
                n == self.pheromones@.len(),
                self.wf(),
                self.same_setup(*old(self)),
                self.best == old(self).best,
                forall|i: int| 0 <= i < c ==> #[trigger] self.pheromones@[i] == PHEROMONE_ONE,
            decreases n - c,
        {
            self.pheromones.set(c, PHEROMONE_ONE);
            c += 1;
        }
    }

    /// Lets the pheromone of every node evaporate once.
    pub fn evaporate(&mut self)
        requires
            old(self).wf(),
        ensures
            final(self).wf(),
            final(self).same_setup(*old(self)),
            final(self).best == old(self).best,
            forall|c: int|
                0 <= c < final(self).pheromones@.len() ==> #[trigger] final(self).pheromones@[c]
                    == spec_evaporated(old(self).pheromones@[c]),
    {
        let n = self.pheromones.len();
        let mut c: usize = 0;
        while c < n
            invariant
                c <= n,
                n == self.pheromones@.len(),
                self.wf(),
                self.same_setup(*old(self)),
                self.best == old(self).best,
                forall|i: int|
                    0 <= i < c ==> #[trigger] self.pheromones@[i] == spec_evaporated(
                        old(self).pheromones@[i],
                    ),
                forall|i: int| c <= i < n ==> #[trigger] self.pheromones@[i] == old(self).pheromones@[i],
            decreases n - c,
        {
            let p = evaporated(self.pheromones[c]);
            self.pheromones.set(c, p);
            c += 1;
        }
    }

    /// Reinforces the pheromone of every node on the best route.
    pub fn reinforce(&mut self)
        requires
            old(self).wf(),
        ensures
            final(self).wf(),
            final(self).same_setup(*old(self)),
            final(self).best == old(self).best,
            forall|c: int|
                0 <= c < final(self).pheromones@.len() ==> #[trigger] final(self).pheromones@[c] == (
                if old(self).best.ids().contains(c as usize) {
                    spec_reinforced(old(self).pheromones@[c])
                } else {
                    old(self).pheromones@[c]
                }),
    {
        let n = self.pheromones.len();
        let mut marked: Vec<bool> = Vec::new();
        let mut c: usize = 0;
        while c < n
            invariant
                c <= n,
                marked@.len() == c,
                forall|i: int| 0 <= i < c ==> !(#[trigger] marked@[i]),
            decreases n - c,
        {
            marked.push(false);
            c += 1;
        }
        let mut i: usize = 0;
        while i < self.best.nodes.len()
            invariant
                i <= self.best.nodes@.len(),
                n == self.pheromones@.len(),
                self.wf(),
                *self == *old(self),
                marked@.len() == n,
                forall|c: int|
                    0 <= c < n ==> (#[trigger] marked@[c] <==> exists|j: int|
                        0 <= j < i && self.best.ids()[j] == c),
            decreases self.best.nodes@.len() - i,
        {
            let id = self.best.nodes[i].id;
            assert(self.best.ids()[i as int] == id);
            assert(id < n);
            let ghost before = marked@;
            marked.set(id, true);
            proof {
                assert forall|c: int| 0 <= c < n implies (#[trigger] marked@[c] <==> exists|j: int|
                    0 <= j < i + 1 && self.best.ids()[j] == c) by {
                    if marked@[c] {
                        if c == id {
                            assert(self.best.ids()[i as int] == c);
                        } else {
                            assert(before[c]);
                            let j = choose|j: int| 0 <= j < i && self.best.ids()[j] == c;
                            assert(0 <= j < i + 1 && self.best.ids()[j] == c);
                        }
                    } else {
                        assert(c != id);
                        assert(!before[c]);
                        if exists|j: int| 0 <= j < i + 1 && self.best.ids()[j] == c {
                            let j = choose|j: int| 0 <= j < i + 1 && self.best.ids()[j] == c;
                            assert(j != i);
                            assert(0 <= j < i && self.best.ids()[j] == c);
                        }
                    }
                }
            }
            i += 1;
        }
        proof {
            assert forall|c: int| 0 <= c < n implies (#[trigger] marked@[c] <==> self.best.ids().contains(
                c as usize,
            )) by {
                if marked@[c] {
                    let j = choose|j: int| 0 <= j < self.best.nodes@.len() && self.best.ids()[j] == c;
                    assert(self.best.ids()[j] == c as usize);
                }
                if self.best.ids().contains(c as usize) {
                    let j = choose|j: int|
                        0 <= j < self.best.ids().len() && self.best.ids()[j] == c as usize;
                    assert(0 <= j < self.best.nodes@.len() && self.best.ids()[j] == c);
                }
            }
        }
        let mut c: usize = 0;
        while c < n
            invariant
                c <= n,
                n == self.pheromones@.len(),
                self.wf(),
                self.same_setup(*old(self)),
                self.best == old(self).best,
                marked@.len() == n,
                forall|i: int|
                    0 <= i < n ==> (#[trigger] marked@[i] <==> old(self).best.ids().contains(i as usize)),
                forall|i: int|
                    0 <= i < c ==> #[trigger] self.pheromones@[i] == (if old(self).best.ids().contains(
                        i as usize,
                    ) {
                        spec_reinforced(old(self).pheromones@[i])
                    } else {
                        old(self).pheromones@[i]
                    }),
                forall|i: int| c <= i < n ==> #[trigger] self.pheromones@[i] == old(self).pheromones@[i],
            decreases n - c,
        {
            if marked[c] {
                let p = reinforced(self.pheromones[c]);
                self.pheromones.set(c, p);
            }
            c += 1;
        }
    }

    /// Lets one ant walk from the source to the destination.
    ///
    /// The ant takes `k` steps. For each it weighs every node by
    /// [`spec_candidate_weight`], draws a number below the sum of the
    /// weights from `draws` and goes to the node that [`pick_weighted`]
    /// gives for the draw; the pheromone of that node is boosted at once. After the last
    /// step it goes to the destination. Whatever is drawn, the walk is a
    /// route of this search, and the pheromone of each node that was
    /// stepped on has been boosted once. Where the draws are replayed, the
    /// walk is the one that [`Request::walk`] tells.
    pub fn walk(&mut self, draws: &mut Draws) -> (route: MapPath)
        requires
            old(self).wf(),
        ensures
            final(self).wf(),
            final(self).same_setup(*old(self)),
            final(draws).same_source(*old(draws)),
            final(self).best == old(self).best,
            is_route_of(old(self).points@, route, old(self).source, old(self).destination, old(self).k),
            final(self).pheromones@ == pheromones_on(old(self).pheromones@, intermediates(route.ids())),
            *old(draws) is Replay ==> {
                &&& route.ids() == old(self).request().walk(
                    old(self).pheromones@,
                    old(draws)->numbers@,
                    old(draws)->next,
                ).0
                &&& final(draws)->next == old(self).request().walk(
                    old(self).pheromones@,
                    old(draws)->numbers@,
                    old(draws)->next,
                ).1
            },
    {
        let ghost pts = self.points@;
        let ghost req = self.request();
        let ghost start = self.pheromones@;
        let n = self.points.len();
        let s = self.source;
        let d = self.destination;
        let k = self.k;
        let mut visited: Vec<bool> = Vec::new();
        let mut i: usize = 0;
        while i < n
            invariant
                i <= n,
                visited@.len() == i,
                forall|c: int| 0 <= c < i ==> #[trigger] visited@[c] == (c == s),
            decreases n - i,
        {
            visited.push(i == s);
            i += 1;
        }
        let mut route: Vec<usize> = Vec::new();
        route.push(s);
        let mut length: u128 = 0;
        let mut last: usize = s;
        proof {
            assert(route@ =~= seq![s]);
            assert(route@.subrange(1, 1) =~= Seq::<usize>::empty());
            assert forall|c: usize| c < n implies #[trigger] visited@[c as int] == route@.contains(c) by {
                if c == s {
                    assert(route@[0] == c);
                }
            }
        }
        let mut j: usize = 0;
        while j < k
            invariant
                j <= k,
                k + 2 <= n,
                n == pts.len(),
                pts == self.points@,
                s == self.source,
                d == self.destination,
                k == self.k,
                d < n,
                self.wf(),
                self.same_setup(*old(self)),
                self.best == old(self).best,
                draws.same_source(*old(draws)),
                req == old(self).request(),
                start == old(self).pheromones@,
                *old(draws) is Replay ==> (route@, draws->next) == req.walk_steps(
                    start,
                    old(draws)->numbers@,
                    old(draws)->next,
                    j as nat,
                ),
                route@.len() == j + 1,
                route@[0] == s,
                last == route@[j as int],
                forall|t: int| 0 <= t < route@.len() ==> #[trigger] route@[t] < n,
                visited@.len() == n,
                forall|c: usize| c < n ==> #[trigger] visited@[c as int] == route@.contains(c),
                route@.subrange(1, j + 1).no_duplicates(),
                !route@.subrange(1, j + 1).contains(s),
                !route@.subrange(1, j + 1).contains(d),
                length == route_length(points_of(pts, route@)),
                start.len() == n,
                self.pheromones@ == pheromones_on(start, route@.subrange(1, j + 1)),
            decreases k - j,
        {
            let ghost tail = route@.subrange(1, j + 1);
            proof {
                assert forall|c: int| 0 <= c < n implies #[trigger] self.desirability@[last as int]@[c]
                    <= FRACTION_ONE by {
                    lemma_desirability_bound(pts, d as int, self.alpha, last as int, c);
                }
            }
            let weights = candidate_weights(
                &self.desirability[last],
                &self.pheromones,
                self.beta,
                &visited,
                d,
            );
            let total = total_weight(&weights);
            proof {
                let row = self.desirability@[last as int]@;
                assert(row =~= req.desirability_row(last));
                assert(route@.drop_first() =~= tail);
                assert(visited@ =~= visited_on(n as nat, route@));
                assert(weights@ =~= req.step_weights(start, route@));
                lemma_unused_node_exists(n as nat, route@.push(d));
                let c0 = choose|c: usize| c < n && !route@.push(d).contains(c);
                assert(c0 != d) by {
                    assert(route@.push(d)[route@.len() as int] == d);
                }
                assert(!route@.contains(c0)) by {
                    if route@.contains(c0) {
                        let t = choose|t: int| 0 <= t < route@.len() && route@[t] == c0;
                        assert(route@.push(d)[t] == c0);
                    }
                }
                assert(!visited@[c0 as int]);
                assert(weights@[c0 as int] >= 1);
                lemma_weight_sum_grows(weights@, c0 as int, n as int);
            }
            let draw = draws.below(total);
            let c = pick_weighted(&weights, draw);
            assert(!visited@[c as int] && c != d);
            assert(!route@.contains(c));
            assert(c != s);
            let p = boosted(self.pheromones[c]);
            proof {
                lemma_route_length_push(points_of(pts, route@), pts[c as int]);
                lemma_route_length_bound(points_of(pts, route@));
                lemma_distance_bound(pts[last as int], pts[c as int]);
                assert(points_of(pts, route@.push(c)) =~= points_of(pts, route@).push(pts[c as int]));
                assert(route@.len() * 0x2_0000_0000 <= 0x1_0000_0000_0000_0000 * 0x2_0000_0000)
                    by (nonlinear_arith)
                    requires
                        route@.len() <= 0x1_0000_0000_0000_0000,
                ;
            }
            let ghost route_before = route@;
            let ghost visited_before = visited@;
            length = length + self.distances[last][c] as u128;
            self.pheromones.set(c, p);
            route.push(c);
            visited.set(c, true);
            last = c;
            j += 1;
            proof {
                let grown = route@.subrange(1, j + 1);
                assert(grown =~= tail.push(c));
                assert(!tail.contains(c)) by {
                    if tail.contains(c) {
                        let t = choose|t: int| 0 <= t < tail.len() && tail[t] == c;
                        assert(route@[t + 1] == c);
                    }
                }
                assert forall|x: usize| c != x implies (grown.contains(x) <==> tail.contains(x)) by {
                    if grown.contains(x) {
                        let t = choose|t: int| 0 <= t < grown.len() && grown[t] == x;
                        assert(tail[t] == x);
                    }
                    if tail.contains(x) {
                        let t = choose|t: int| 0 <= t < tail.len() && tail[t] == x;
                        assert(grown[t] == x);
                    }
                }
                assert(grown.contains(c)) by {
                    assert(grown[grown.len() - 1] == c);
                }
                assert(self.pheromones@ =~= pheromones_on(start, grown));
                assert forall|x: usize| x < n implies #[trigger] visited@[x as int] == route@.contains(
                    x,
                ) by {
                    assert(visited_before[x as int] == route_before.contains(x));
                    if route@.contains(x) {
                        let t = choose|t: int| 0 <= t < route@.len() && route@[t] == x;
                        if t < route@.len() - 1 {
                            assert(route_before[t] == x);
                        }
                    }
                    if route_before.contains(x) {
                        let t = choose|t: int| 0 <= t < route_before.len() && route_before[t] == x;
                        assert(route@[t] == x);
                    }
                    if x == c {
                        assert(route@[route@.len() - 1] == c);
                    }
                }
            }
        }
        proof {
            lemma_route_length_push(points_of(pts, route@), pts[d as int]);
            lemma_route_length_bound(points_of(pts, route@));
            lemma_distance_bound(pts[last as int], pts[d as int]);
            assert(points_of(pts, route@.push(d)) =~= points_of(pts, route@).push(pts[d as int]));
            assert(route@.len() * 0x2_0000_0000 <= 0x1_0000_0000_0000_0000 * 0x2_0000_0000)
                by (nonlinear_arith)
                requires
                    route@.len() <= 0x1_0000_0000_0000_0000,
            ;
            assert(intermediates(route@.push(d)) =~= route@.subrange(1, k + 1));
        }
        length = length + self.distances[last][d] as u128;
        route.push(d);
        let walked = MapPath::from_route(&self.points, &route, length);
        walked
    }

    /// `after` is this search after a generation in which the ants walked
    /// `walks`: every walk is a route of the search, the shortest walk has
    /// taken the place of the best route where it is strictly shorter, and
    /// the pheromones are those that the walks left, settled.
    pub open spec fn is_generation(self, walks: Seq<Seq<usize>>, after: Colony) -> bool {
        let shortest = shortest_walk(self.points@, walks);
        let neutral = Seq::new(self.points@.len(), |c: int| PHEROMONE_ONE);
        &&& forall|i: int|
            0 <= i < walks.len() ==> is_simple_route(
                self.points@.len(),
                #[trigger] walks[i],
                self.source,
                self.destination,
            ) && walks[i].len() == self.k + 2
        &&& after.best.ids() == if shortest.1 < self.best.length {
            shortest.0
        } else {
            self.best.ids()
        }
        &&& after.best.length == if shortest.1 < self.best.length {
            shortest.1
        } else {
            self.best.length as nat
        }
        &&& after.pheromones@ == settled_pheromones(walked_pheromones(neutral, walks), after.best.ids())
    }

    /// Settles a generation whose shortest walk is `local`: every
    /// pheromone evaporates once, `local` takes the place of the best route
    /// where it is strictly shorter, and the nodes of the best route are
    /// reinforced.
    pub fn settle(&mut self, local: MapPath)
        requires
            old(self).wf(),
            is_unset(local) || is_route_of(
                old(self).points@,
                local,
                old(self).source,
                old(self).destination,
                old(self).k,
            ),
        ensures
            final(self).wf(),
            final(self).same_setup(*old(self)),
            final(self).best == if local.length < old(self).best.length {
                local
            } else {
                old(self).best
            },
            final(self).pheromones@ == settled_pheromones(old(self).pheromones@, final(self).best.ids()),
    {
        self.evaporate();
        if local.length < self.best.length {
            self.best = local;
        }
        self.reinforce();
        assert(self.pheromones@ =~= settled_pheromones(old(self).pheromones@, self.best.ids()));
    }

    /// Runs one generation of `population` ants.
    ///
    /// Every node starts with the neutral pheromone. Each ant walks in
    /// turn, and the shortest of the walks is the generation's best. Then
    /// every pheromone evaporates once, the generation's best takes the
    /// place of the best route so far if it is strictly shorter, and the
    /// nodes of the best route are reinforced, as [`Colony::settle`] does
    /// it. The best route never gets longer, and after a generation with an
    /// ant it is set. Whatever is drawn, the state after the generation is
    /// the one that [`Colony::is_generation`] tells for some walks. Where the
    /// draws are replayed, the best route and the pheromones are those that
    /// [`Request::generation`] and [`Request::generation_pheromones`] tell.
    pub fn run_generation(&mut self, population: i32, draws: &mut Draws)
        requires
            old(self).wf(),
        ensures
            final(self).wf(),
            final(self).same_setup(*old(self)),
            final(draws).same_source(*old(draws)),
            final(self).best.length <= old(self).best.length,
            final(self).best == old(self).best || final(self).best.length < old(self).best.length,
            population >= 1 ==> !is_unset(final(self).best),
            population < 1 ==> final(self).best == old(self).best,
            exists|walks: Seq<Seq<usize>>|
                walks.len() == Graph::spec_rounds(population) && #[trigger] old(self).is_generation(
                    walks,
                    *final(self),
                ),
            *old(draws) is Replay ==> {
                &&& final(self).best.ids() == old(self).request().generation(
                    old(self).progress(old(draws)->next),
                    old(draws)->numbers@,
                    population,
                ).route
                &&& final(self).best.length == old(self).request().generation(
                    old(self).progress(old(draws)->next),
                    old(draws)->numbers@,
                    population,
                ).length
                &&& final(draws)->next == old(self).request().generation(
                    old(self).progress(old(draws)->next),
                    old(draws)->numbers@,
                    population,
                ).next
                &&& final(self).pheromones@ == old(self).request().generation_pheromones(
                    old(self).progress(old(draws)->next),
                    old(draws)->numbers@,
                    population,
                )
            },
    {
        let ghost req = self.request();
        let ghost neutral = Seq::new(self.points@.len(), |c: int| PHEROMONE_ONE);
        self.reset();
        assert(self.pheromones@ =~= neutral);
        let mut local = MapPath { nodes: Vec::new(), length: u128::MAX };
        assert(local.ids() =~= Seq::<usize>::empty());
        let ghost mut walks: Seq<Seq<usize>> = Seq::empty();
        let mut ant: i32 = 0;
        while ant < population
            invariant
                0 <= ant,
                ant <= population || ant == 0,
                self.wf(),
                self.same_setup(*old(self)),
                draws.same_source(*old(draws)),
                self.best == old(self).best,
                req == old(self).request(),
                neutral == Seq::new(self.points@.len(), |c: int| PHEROMONE_ONE),
                ant == 0 ==> is_unset(local),
                ant >= 1 ==> is_route_of(self.points@, local, self.source, self.destination, self.k),
                ant >= 1 ==> local.length < u128::MAX,
                walks.len() == ant,
                forall|i: int|
                    0 <= i < walks.len() ==> is_simple_route(
                        self.points@.len(),
                        #[trigger] walks[i],
                        self.source,
                        self.destination,
                    ) && walks[i].len() == self.k + 2,
                self.pheromones@ == walked_pheromones(neutral, walks),
                (local.ids(), local.length as nat) == shortest_walk(self.points@, walks),
                *old(draws) is Replay ==> (Swarm {
                    route: local.ids(),
                    length: local.length as nat,
                    pheromones: self.pheromones@,
                    next: draws->next,
                }) == req.ants(neutral, old(draws)->numbers@, old(draws)->next, ant as nat),
            decreases population - ant,
        {
            let walked = self.walk(draws);
            let count = walked.nodes.len();
            proof {
                lemma_route_length_bound(walked.points());
                assert(count * 0x2_0000_0000 <= 0x1_0000_0000_0000_0000 * 0x2_0000_0000)
                    by (nonlinear_arith)
                    requires
                        count <= 0x1_0000_0000_0000_0000,
                ;
                assert(walked.length < u128::MAX);
                let longer = walks.push(walked.ids());
                assert(longer.drop_last() =~= walks);
                assert(longer.last() == walked.ids());
                walks = longer;
            }
            if walked.length < local.length {
                local = walked;
            }
            ant += 1;
        }
        let ghost swarm_pheromones = self.pheromones@;
        let ghost local_ids = local.ids();
        let ghost local_length = local.length;
        self.settle(local);
        proof {
            assert(old(self).is_generation(walks, *self));
            if *old(draws) is Replay {
                let before = old(self).progress(old(draws)->next);
                let numbers = old(draws)->numbers@;
                assert(req.swarm(numbers, before.next, population).pheromones == swarm_pheromones);
                assert(self.pheromones@ =~= req.generation_pheromones(before, numbers, population));
            }
        }
    }

    /// Gives the best route of the search.
    pub fn into_best(self) -> (best: MapPath)
        ensures
            best == self.best,
    {
        self.best
    }
}

impl Graph {
    /// The request to the ant colony that the arguments make.
    pub open spec fn colony_request(
        self,
        source: Point,
        destination: Point,
        k: usize,
        alpha: i32,
        beta: i32,
    ) -> Request {
        Request {
            points: self.nodes@,
            source: first_index(self.nodes@, source) as usize,
            destination: first_index(self.nodes@, destination) as usize,
            k,
            alpha,
            beta,
        }
    }

    /// The number of rounds that a count stands for: none where it is
    /// below one.
    pub open spec fn spec_rounds(count: i32) -> nat {
        if count > 0 {
            count as nat
        } else {
            0
        }
    }

    /// The ant-colony constructor.
    ///
    /// When both end points are nodes of the graph and the graph holds `k`
    /// nodes besides two end points, runs `iterations` generations of
    /// `population` ants and returns the best route that an ant has walked:
    /// `k` nodes between `source` and `destination`, with the route's
    /// length. Where the request is not feasible, or no ant walks because
    /// `iterations` or `population` is below one, the result is `None`. The
    /// ants draw from the thread's random generator.
    pub fn find_shortest_path_with_intermediate_points_ant_colony(
        &self,
        source: &Point,
        destination: &Point,
        k: usize,
        iterations: i32,
        population: i32,
        alpha: i32,
        beta: i32,
    ) -> (r: Option<Path>)
        ensures
            r.is_some() == (self.spec_feasible(*source, *destination, k) && iterations >= 1 && population
                >= 1),
            r matches Some(p) ==> {
                &&& is_path_between(self.nodes@, p.points@, *source, *destination, k as nat)
                &&& p.length == route_length(p.points@)
            },
    {
        let mut draws = Draws::Random;
        self.find_shortest_path_with_intermediate_points_ant_colony_with(
            source,
            destination,
            k,
            iterations,
            population,
            alpha,
            beta,
            &mut draws,
        )
    }

    /// The ant-colony constructor with the source of its draws: as
    /// [`Graph::find_shortest_path_with_intermediate_points_ant_colony`],
    /// but the ants draw from `draws`, so that a run can be replayed. The
    /// result of a replay is the best route that [`Request::generations`]
    /// tells.
    pub fn find_shortest_path_with_intermediate_points_ant_colony_with(
        &self,
        source: &Point,
        destination: &Point,
        k: usize,
        iterations: i32,
        population: i32,
        alpha: i32,
        beta: i32,
        draws: &mut Draws,
    ) -> (r: Option<Path>)
        ensures
            r.is_some() == (self.spec_feasible(*source, *destination, k) && iterations >= 1 && population
                >= 1),
            r matches Some(p) ==> {
                &&& is_path_between(self.nodes@, p.points@, *source, *destination, k as nat)
                &&& p.length == route_length(p.points@)
            },
            final(draws).same_source(*old(draws)),
            *old(draws) is Replay ==> final(draws)->next == self.colony_request(
                *source,
                *destination,
                k,
                alpha,
                beta,
            ).generations(
                old(draws)->numbers@,
                old(draws)->next,
                population,
                Graph::spec_rounds(if self.spec_feasible(*source, *destination, k) {
                    iterations
                } else {
                    0
                }),
            ).next,
            *old(draws) is Replay ==> (r matches Some(p) ==> {
                &&& p.points@ == points_of(
                    self.nodes@,
                    self.colony_request(*source, *destination, k, alpha, beta).generations(
                        old(draws)->numbers@,
                        old(draws)->next,
                        population,
                        Graph::spec_rounds(iterations),
                    ).route,
                )
                &&& p.length == self.colony_request(*source, *destination, k, alpha, beta).generations(
                    old(draws)->numbers@,
                    old(draws)->next,
                    population,
                    Graph::spec_rounds(iterations),
                ).length
            }),
    {
        let (s, d) = match self.locate(source, destination, k) {
            Some(ends) => ends,
            None => {
                return None;
            },
        };
        let ghost req = self.colony_request(*source, *destination, k, alpha, beta);
        if iterations < 1 || population < 1 {
            proof {
                if *old(draws) is Replay {
                    lemma_no_ants(
                        req,
                        old(draws)->numbers@,
                        old(draws)->next,
                        population,
                        Graph::spec_rounds(iterations),
                    );
                }
            }
            return None;
        }
        let mut colony = Colony::new(self, s, d, k, alpha, beta);
        let ghost start = colony;
        assert(start.points@ == self.nodes@);
        proof {
            assert(colony.request() == req);
            assert(colony.best.ids() =~= Seq::<usize>::empty());
        }
        let mut generation: i32 = 0;
        while generation < iterations
            invariant
                0 <= generation,
                generation <= iterations || generation == 0,
                colony.wf(),
                colony.same_setup(start),
                draws.same_source(*old(draws)),
                start.request() == req,
                *old(draws) is Replay ==> colony.progress(draws->next) == req.generations(
                    old(draws)->numbers@,
                    old(draws)->next,
                    population,
                    generation as nat,
                ),
                start.points@ == self.nodes@,
                start.source == s,
                start.destination == d,
                start.k == k,
                generation == 0 ==> is_unset(colony.best),
                generation >= 1 && population >= 1 ==> !is_unset(colony.best),
                population < 1 ==> is_unset(colony.best),
            decreases iterations - generation,
        {
            colony.run_generation(population, draws);
            generation += 1;
        }
        let best = colony.into_best();
        let ghost ids = best.ids();
        let p = best.into_path();
        proof {
            assert(colony.points@ == self.nodes@);
            lemma_simple_route_points(self.nodes@, ids, s, d, k as nat);
            assert(p.points@ == points_of(self.nodes@, ids));
        }
        Some(p)
    }
}

} // verus!
