use waypaths::weights::boosted;
use waypaths::weights::candidate_weights;
use waypaths::weights::evaporated;
use waypaths::weights::extremes;
use waypaths::weights::pick_weighted;
use waypaths::weights::reinforced;
use waypaths::weights::total_weight;
use waypaths::colony::Colony;
use waypaths::weights::PHEROMONE_CAP;
use waypaths::weights::PHEROMONE_ONE;
use waypaths::data::Point;
use waypaths::fraction::fraction;
use waypaths::fraction::fraction_power;
use waypaths::fraction::magnitude;
use waypaths::fraction::FRACTION_ONE;
use waypaths::graph::Graph;
use waypaths::graph::MapPath;
use waypaths::util::Draws;

fn pt(x: i32, y: i32) -> Point {
    Point { x, y }
}

fn graph_of(points: &[(i32, i32)]) -> Graph {
    Graph { nodes: points.iter().map(|p| pt(p.0, p.1)).collect() }
}

fn kite() -> Graph {
    graph_of(&[(0, 0), (3000, 4000), (6000, 0), (3000, -4000), (10000, 0)])
}

fn scattered() -> Graph {
    graph_of(&[(451, 720), (18, 393), (339, 529), (638, 302), (524, 983), (65, 115)])
}

#[test]
fn fractions_round_down() {
    assert_eq!(FRACTION_ONE, 2_147_483_648);
    assert_eq!(fraction(1, 3), 715_827_882);
    assert_eq!(fraction(3, 4), 1_610_612_736);
    assert_eq!(fraction(5, 5), FRACTION_ONE);
    assert_eq!(fraction(7, 2), FRACTION_ONE);
    assert_eq!(fraction(0, 9), 0);
    assert_eq!(fraction(0, 0), FRACTION_ONE);
}

#[test]
fn powers_of_fractions() {
    assert_eq!(fraction_power(FRACTION_ONE / 2, 3), 268_435_456);
    assert_eq!(fraction_power(fraction(3, 4), 2), 1_207_959_552);
    assert_eq!(fraction_power(fraction(1, 3), 5), 8_837_380);
    assert_eq!(fraction_power(fraction(1, 3), 22), 0);
    assert_eq!(fraction_power(123, 0), FRACTION_ONE);
    assert_eq!(fraction_power(FRACTION_ONE, 1_000_000), FRACTION_ONE);
    assert_eq!(fraction_power(u64::MAX, 5), FRACTION_ONE);
    assert_eq!(fraction_power(0, u32::MAX), 0);
}

#[test]
fn magnitude_of_exponents() {
    assert_eq!(magnitude(22), 22);
    assert_eq!(magnitude(-5), 5);
    assert_eq!(magnitude(0), 0);
    assert_eq!(magnitude(i32::MIN), 2_147_483_648);
}

#[test]
fn pheromone_steps() {
    assert_eq!(boosted(PHEROMONE_ONE), 1_060_000);
    assert_eq!(boosted(PHEROMONE_CAP), PHEROMONE_CAP);
    assert_eq!(boosted(u64::MAX), PHEROMONE_CAP);
    assert_eq!(evaporated(1_060_000), 1_039_215);
    assert_eq!(evaporated(PHEROMONE_ONE), PHEROMONE_ONE);
    assert_eq!(evaporated(1_019_999), PHEROMONE_ONE);
    assert_eq!(evaporated(1_020_001), PHEROMONE_ONE);
    assert_eq!(evaporated(1_030_000), 1_009_803);
    assert_eq!(reinforced(PHEROMONE_ONE), 1_338_225);
    assert_eq!(reinforced(PHEROMONE_CAP), PHEROMONE_CAP);
}

#[test]
fn extremes_of_values() {
    assert_eq!(extremes(&vec![5, 3, 9, 3]), (3, 9));
    assert_eq!(extremes(&vec![7]), (7, 7));
}

#[test]
fn roulette_wheel_picks_the_stretch_of_the_draw() {
    let weights: Vec<u64> = vec![0, 2, 0, 1, 4, 0];
    assert_eq!(total_weight(&weights), 7);
    assert_eq!(pick_weighted(&weights, 0), 1);
    assert_eq!(pick_weighted(&weights, 1), 1);
    assert_eq!(pick_weighted(&weights, 2), 3);
    assert_eq!(pick_weighted(&weights, 3), 4);
    assert_eq!(pick_weighted(&weights, 6), 4);
    let large: Vec<u64> = vec![u64::MAX, u64::MAX, 1];
    assert_eq!(total_weight(&large), 2 * (u64::MAX as u128) + 1);
    assert_eq!(pick_weighted(&large, u64::MAX as u128), 1);
    assert_eq!(pick_weighted(&large, 2 * (u64::MAX as u128)), 2);
    assert_eq!(total_weight(&vec![]), 0);
}

#[test]
fn colony_tables_of_the_kite() {
    let c = Colony::new(&kite(), 0, 4, 3, 2, 5);
    assert_eq!(c.points, kite().nodes);
    assert_eq!((c.source, c.destination, c.k, c.alpha, c.beta), (0, 4, 3, 2, 5));
    assert_eq!(c.pheromones, vec![PHEROMONE_ONE; 5]);
    assert!(c.best.nodes.is_empty());
    assert_eq!(c.best.length, u128::MAX);
    assert_eq!(c.distances[0], vec![0, 5000, 6000, 5000, 10000]);
    assert_eq!(c.distances[1][3], 8000);
    assert_eq!(
        c.desirability,
        vec![
            vec![0, 1258666016, 2147483648, 1258666016, 0],
            vec![773094112, 0, 2147483648, 674241749, 0],
            vec![1431229433, 2147483648, 0, 2147483648, 0],
            vec![773094112, 674241749, 2147483648, 0, 0],
            vec![343597383, 528645159, 2147483648, 528645159, 0],
        ]
    );
}

#[test]
fn desirability_for_other_exponents() {
    let one = Colony::new(&kite(), 0, 4, 3, 1, 0);
    assert_eq!(one.desirability[0], vec![0, 1644069551, 2147483648, 1644069551, 0]);
    let negative = Colony::new(&kite(), 0, 4, 3, -1, 0);
    assert_eq!(negative.desirability[0], vec![0, 2147483648, 1644069551, 2147483648, 0]);
    assert_eq!(negative.desirability[4], vec![2147483648, 1731301317, 858993459, 1731301317, 0]);
    let zero = Colony::new(&kite(), 0, 4, 3, 0, 0);
    assert_eq!(zero.desirability[1], vec![2147483648, 0, 2147483648, 2147483648, 0]);
}

#[test]
fn weights_of_a_draw() {
    let c = Colony::new(&kite(), 0, 4, 3, 2, 5);
    let visited = vec![true, false, false, false, false];
    let neutral = candidate_weights(&c.desirability[0], &c.pheromones, 5, &visited, 4);
    assert_eq!(neutral, vec![0, 2702964687653306368, 4611686018427387904, 2702964687653306368, 0]);
    let pheromones: Vec<u64> = vec![1000000, 1060000, 1000000, 2000000, 1000000];
    let up = candidate_weights(&c.desirability[0], &pheromones, 1, &visited, 4);
    assert_eq!(up, vec![0, 1432571283902439328, 2305843009213693952, 2702964687653306368, 0]);
    let down = candidate_weights(&c.desirability[0], &pheromones, -2, &visited, 4);
    assert_eq!(down, vec![0, 2405628947344844800, 4611686018427387904, 675741171913326592, 0]);
    let all_seen = candidate_weights(&c.desirability[0], &pheromones, 1, &vec![true; 5], 4);
    assert_eq!(all_seen, vec![0; 5]);
}

#[test]
fn vanishing_weights_count_as_one() {
    let desirability: Vec<u64> = vec![0, 0, 5];
    let pheromones: Vec<u64> = vec![PHEROMONE_ONE; 3];
    let w = candidate_weights(&desirability, &pheromones, 3, &vec![false, true, false], 9);
    assert_eq!(w, vec![1, 0, 5 * FRACTION_ONE]);
}

fn check_route(g: &Graph, points: &Vec<Point>, s: Point, d: Point, k: usize) {
    assert_eq!(points.len(), k + 2);
    assert_eq!(points[0], s);
    assert_eq!(points[k + 1], d);
    for i in 1..=k {
        assert!(g.nodes.contains(&points[i]));
        assert_ne!(points[i], s);
        assert_ne!(points[i], d);
        for j in (i + 1)..=k {
            assert_ne!(points[i], points[j]);
        }
    }
}

#[test]
fn ant_walk_is_a_route_and_boosts_its_nodes() {
    let g = scattered();
    let mut c = Colony::new(&g, 0, 1, 3, 2, 5);
    let mut draws = Draws::Random;
    for _ in 0..20 {
        c.reset();
        let walked = c.walk(&mut draws);
        let points: Vec<Point> = walked.nodes.iter().map(|n| n.node).collect();
        check_route(&g, &points, g.nodes[0], g.nodes[1], 3);
        for n in walked.nodes.iter() {
            assert_eq!(n.node, g.nodes[n.id]);
        }
        let mut sum: u128 = 0;
        for i in 1..points.len() {
            sum += points[i - 1].distance_to(&points[i]) as u128;
        }
        assert_eq!(walked.length, sum);
        for id in 0..g.nodes.len() {
            let stepped = walked.nodes[1..4].iter().any(|n| n.id == id);
            assert_eq!(c.pheromones[id], if stepped { 1_060_000 } else { PHEROMONE_ONE });
        }
        assert!(c.best.nodes.is_empty());
    }
}

#[test]
fn evaporation_reset_and_reinforcement() {
    let g = kite();
    let mut c = Colony::new(&g, 0, 4, 1, 2, 5);
    c.pheromones = vec![1_000_000, 1_060_000, 1_030_000, 1_019_999, PHEROMONE_CAP];
    c.evaporate();
    assert_eq!(c.pheromones, vec![1_000_000, 1_039_215, 1_009_803, 1_000_000, 980_392_156_862]);
    c.reinforce();
    assert_eq!(c.pheromones, vec![1_000_000, 1_039_215, 1_009_803, 1_000_000, 980_392_156_862]);
    c.run_generation(1, &mut Draws::Random);
    assert_eq!(c.best.nodes.len(), 3);
    let on_route: Vec<usize> = c.best.nodes.iter().map(|n| n.id).collect();
    c.reset();
    assert_eq!(c.pheromones, vec![PHEROMONE_ONE; 5]);
    c.reinforce();
    for id in 0..5 {
        assert_eq!(c.pheromones[id], if on_route.contains(&id) { 1_338_225 } else { PHEROMONE_ONE });
    }
}

#[test]
fn best_length_never_grows_over_generations() {
    let g = scattered();
    let mut c = Colony::new(&g, 3, 5, 3, 3, 2);
    let mut last = c.best.length;
    assert_eq!(last, u128::MAX);
    let mut draws = Draws::Random;
    for generation in 0..30 {
        c.run_generation(4, &mut draws);
        assert!(c.best.length <= last);
        assert!(c.best.length < u128::MAX);
        let points: Vec<Point> = c.best.nodes.iter().map(|n| n.node).collect();
        check_route(&g, &points, g.nodes[3], g.nodes[5], 3);
        if generation > 0 {
            assert!(c.best.length <= last);
        }
        last = c.best.length;
    }
    c.run_generation(0, &mut draws);
    assert_eq!(c.best.length, last);
    c.run_generation(-3, &mut draws);
    assert_eq!(c.best.length, last);
}

#[test]
fn ant_colony_returns_a_route() {
    let g = scattered();
    let s = pt(451, 720);
    let d = pt(18, 393);
    for k in 0..=4usize {
        let p = g.find_shortest_path_with_intermediate_points_ant_colony(&s, &d, k, 5, 6, 22, 5).unwrap();
        check_route(&g, &p.points, s, d, k);
        assert_eq!(p.length, p.measured_length());
    }
}

#[test]
fn ant_colony_with_degenerate_exponents() {
    let g = scattered();
    let s = pt(451, 720);
    let d = pt(18, 393);
    for (alpha, beta) in [(0, 0), (0, 5), (22, 0), (-3, -2), (i32::MAX, 1), (1, i32::MIN)] {
        let p = g.find_shortest_path_with_intermediate_points_ant_colony(&s, &d, 3, 2, 3, alpha, beta).unwrap();
        check_route(&g, &p.points, s, d, 3);
        assert_eq!(p.length, p.measured_length());
    }
}

#[test]
fn ant_colony_with_a_single_candidate_is_exact() {
    let g = graph_of(&[(0, 0), (30, 40), (60, 0)]);
    let p = g.find_shortest_path_with_intermediate_points_ant_colony(&pt(0, 0), &pt(60, 0), 1, 3, 3, 22, 5).unwrap();
    assert_eq!(p.points, vec![pt(0, 0), pt(30, 40), pt(60, 0)]);
    assert_eq!(p.length, 100);
    let direct = g.find_shortest_path_with_intermediate_points_ant_colony(&pt(0, 0), &pt(60, 0), 0, 1, 1, 22, 5).unwrap();
    assert_eq!(direct.points, vec![pt(0, 0), pt(60, 0)]);
    assert_eq!(direct.length, 60);
}

#[test]
fn ant_colony_infeasible_requests_give_nothing() {
    let g = scattered();
    let s = pt(451, 720);
    let d = pt(18, 393);
    assert!(g.find_shortest_path_with_intermediate_points_ant_colony(&pt(1, 1), &d, 1, 2, 2, 22, 5).is_none());
    assert!(g.find_shortest_path_with_intermediate_points_ant_colony(&s, &pt(1, 1), 1, 2, 2, 22, 5).is_none());
    assert!(g.find_shortest_path_with_intermediate_points_ant_colony(&s, &d, 5, 2, 2, 22, 5).is_none());
    let two = graph_of(&[(0, 0), (30, 40)]);
    assert!(two.find_shortest_path_with_intermediate_points_ant_colony(&pt(0, 0), &pt(30, 40), 1, 2, 2, 22, 5).is_none());
    let direct = two.find_shortest_path_with_intermediate_points_ant_colony(&pt(0, 0), &pt(30, 40), 0, 2, 2, 22, 5).unwrap();
    assert_eq!(direct.points, vec![pt(0, 0), pt(30, 40)]);
    assert_eq!(direct.length, 50);
}

#[test]
fn ant_colony_without_an_ant_gives_nothing() {
    let g = scattered();
    let s = pt(451, 720);
    let d = pt(18, 393);
    for (iterations, population) in [(0, 5), (5, 0), (-1, 5), (5, -1), (0, 0), (i32::MAX, 0), (i32::MIN, 3)] {
        assert!(g
            .find_shortest_path_with_intermediate_points_ant_colony(&s, &d, 2, iterations, population, 22, 5)
            .is_none());
        let mut draws = Draws::replay(vec![4, 5, 6]);
        assert!(g
            .find_shortest_path_with_intermediate_points_ant_colony_with(
                &s, &d, 2, iterations, population, 22, 5, &mut draws
            )
            .is_none());
        assert!(matches!(draws, Draws::Replay { next: 0, .. }));
    }
    assert!(g.find_shortest_path_with_intermediate_points_ant_colony(&s, &d, 2, 1, 1, 22, 5).is_some());
}

#[test]
fn settling_a_generation() {
    let g = kite();
    let mut c = Colony::new(&g, 0, 4, 1, 2, 5);
    c.pheromones = vec![1_000_000, 1_060_000, 1_030_000, 1_019_999, PHEROMONE_CAP];
    let walk = g.greedy_insertion(0, 4, 1);
    assert_eq!(walk.length, 10000);
    c.settle(walk);
    let ids: Vec<usize> = c.best.nodes.iter().map(|n| n.id).collect();
    assert_eq!(ids, vec![0, 2, 4]);
    assert_eq!(c.best.length, 10000);
    // evaporated, and reinforced on the nodes 0, 2 and 4
    assert_eq!(c.pheromones, vec![1_338_225, 1_039_215, 1_351_344, 1_000_000, 1_000_000_000_000]);
    let worse = MapPath::from_route(&g.nodes, &vec![0, 1, 4], 13062);
    assert_eq!(worse.clone().into_path().measured_length(), 13062);
    c.reset();
    c.settle(worse);
    assert_eq!(c.best.length, 10000);
    assert_eq!(c.pheromones, vec![1_338_225, 1_000_000, 1_338_225, 1_000_000, 1_338_225]);
}

fn numbers() -> Vec<u128> {
    vec![
        0,
        1 << 127,
        2503155504993241601315571986085849,
        12345678901234567890123,
        u128::MAX,
        7,
        1000000000000000000000000000000,
        999,
    ]
}

#[test]
fn replayed_draws_come_in_turn() {
    let mut draws = Draws::replay(vec![5, 6, 7]);
    let drawn: Vec<u128> = (0..5).map(|_| draws.below(4)).collect();
    assert_eq!(drawn, vec![1, 2, 3, 1, 2]);
    match draws {
        Draws::Replay { numbers, next } => {
            assert_eq!(numbers, vec![5, 6, 7]);
            assert_eq!(next, 2);
        }
        Draws::Random => panic!("a replay stays a replay"),
    }
    let mut none = Draws::replay(vec![]);
    assert_eq!(none.below(9), 0);
    assert_eq!(none.below(1), 0);
    let mut random = Draws::Random;
    for _ in 0..100 {
        assert!(random.below(3) < 3);
        assert_eq!(random.below(1), 0);
    }
}

#[test]
fn replayed_walk_is_exact() {
    let g = scattered();
    let mut c = Colony::new(&g, 0, 1, 3, 2, 5);
    let walked = c.walk(&mut Draws::replay(numbers()));
    let ids: Vec<usize> = walked.nodes.iter().map(|n| n.id).collect();
    assert_eq!(ids, vec![0, 2, 5, 3, 1]);
    assert_eq!(walked.length, 1945);
    assert_eq!(c.pheromones, vec![1000000, 1000000, 1060000, 1060000, 1000000, 1060000]);
    c.reset();
    let first = c.walk(&mut Draws::replay(vec![]));
    let ids: Vec<usize> = first.nodes.iter().map(|n| n.id).collect();
    assert_eq!(ids, vec![0, 2, 3, 4, 1]);
    assert_eq!(first.length, 2063);
    assert_eq!(c.pheromones, vec![1000000, 1000000, 1060000, 1060000, 1060000, 1000000]);
}

#[test]
fn replayed_colony_is_exact() {
    let g = scattered();
    let s = pt(451, 720);
    let d = pt(18, 393);
    let expected: [(usize, Vec<(i32, i32)>, u128); 4] = [
        (1, vec![(451, 720), (339, 529), (18, 393)], 569),
        (2, vec![(451, 720), (339, 529), (638, 302), (18, 393)], 1222),
        (3, vec![(451, 720), (339, 529), (638, 302), (65, 115), (18, 393)], 1479),
        (4, vec![(451, 720), (524, 983), (339, 529), (638, 302), (65, 115), (18, 393)], 2020),
    ];
    for (k, points, length) in expected.iter() {
        let mut draws = Draws::replay(numbers());
        let p = g
            .find_shortest_path_with_intermediate_points_ant_colony_with(&s, &d, *k, 3, 4, 2, 1, &mut draws)
            .unwrap();
        let want: Vec<Point> = points.iter().map(|q| pt(q.0, q.1)).collect();
        assert_eq!(p.points, want);
        assert_eq!(p.length, *length);
    }
}

#[test]
fn replayed_colony_improves_over_generations() {
    let g = scattered();
    let mut c = Colony::new(&g, 0, 1, 3, 2, 1);
    let mut draws = Draws::replay(numbers());
    let mut history: Vec<u128> = Vec::new();
    for _ in 0..3 {
        c.run_generation(4, &mut draws);
        history.push(c.best.length);
    }
    assert_eq!(history, vec![2027, 1479, 1479]);
}

#[test]
fn replayed_colony_on_the_kite() {
    let g = kite();
    let s = pt(0, 0);
    let d = pt(10000, 0);
    let mut draws = Draws::replay(numbers());
    let p = g.find_shortest_path_with_intermediate_points_ant_colony_with(&s, &d, 3, 2, 3, 2, 5, &mut draws).unwrap();
    assert_eq!(p.points, vec![s, pt(3000, 4000), pt(6000, 0), pt(3000, -4000), d]);
    assert_eq!(p.length, 23062);
    let mut last = Draws::replay(vec![u128::MAX]);
    let q = g.find_shortest_path_with_intermediate_points_ant_colony_with(&s, &d, 2, 4, 2, 1, 1, &mut last).unwrap();
    assert_eq!(q.points, vec![s, pt(6000, 0), pt(3000, -4000), d]);
    assert_eq!(q.length, 19062);
    let mut other = Draws::replay(numbers());
    assert!(g.find_shortest_path_with_intermediate_points_ant_colony_with(&s, &pt(1, 1), 2, 4, 2, 1, 1, &mut other).is_none());
}

#[test]
fn replay_of_one_list_gives_one_result() {
    let g = scattered();
    let s = pt(638, 302);
    let d = pt(524, 983);
    let a = g
        .find_shortest_path_with_intermediate_points_ant_colony_with(&s, &d, 3, 6, 5, 22, 5, &mut Draws::replay(numbers()))
        .unwrap();
    let b = g
        .find_shortest_path_with_intermediate_points_ant_colony_with(&s, &d, 3, 6, 5, 22, 5, &mut Draws::replay(numbers()))
        .unwrap();
    assert_eq!(a.points, b.points);
    assert_eq!(a.length, b.length);
}
