use waypaths::data::Point;
use waypaths::graph::measure;
use waypaths::graph::Graph;

fn pt(x: i32, y: i32) -> Point {
    Point { x, y }
}

fn graph_of(points: &[(i32, i32)]) -> Graph {
    Graph { nodes: points.iter().map(|p| pt(p.0, p.1)).collect() }
}

fn kite() -> Graph {
    graph_of(&[(0, 0), (3000, 4000), (6000, 0), (3000, -4000), (10000, 0)])
}

#[test]
fn unit_square_with_two_intermediates() {
    // coordinates in thousandths: the corners of the unit square
    let g = graph_of(&[(0, 0), (1000, 0), (0, 1000), (1000, 1000)]);
    let p = g.find_shortest_path_with_intermediate_points(&pt(0, 0), &pt(1000, 1000), 2).unwrap();
    assert_eq!(p.points.len(), 4);
    assert_eq!(p.points[0], pt(0, 0));
    assert_eq!(p.points[3], pt(1000, 1000));
    // both other corners lie on the route, once each
    assert!(p.points[1..3].contains(&pt(1000, 0)));
    assert!(p.points[1..3].contains(&pt(0, 1000)));
    // one side, the diagonal, one side
    assert_eq!(p.length, 1000 + 1414 + 1000);
    let length = p.length as f64 / 1000.0;
    assert!((length - (2.0 + 2.0f64.sqrt())).abs() < 0.002);
    // the tie between the two corners goes to the earlier edge
    assert_eq!(p.points, vec![pt(0, 0), pt(0, 1000), pt(1000, 0), pt(1000, 1000)]);
}

#[test]
fn unit_square_with_one_intermediate() {
    let g = graph_of(&[(0, 0), (1000, 0), (0, 1000), (1000, 1000)]);
    let p = g.find_shortest_path_with_intermediate_points(&pt(0, 0), &pt(1000, 1000), 1).unwrap();
    assert_eq!(p.points, vec![pt(0, 0), pt(1000, 0), pt(1000, 1000)]);
    assert_eq!(p.length, 2000);
}

#[test]
fn no_intermediates_gives_the_direct_path() {
    let g = kite();
    let p = g.find_shortest_path_with_intermediate_points(&pt(3000, 4000), &pt(3000, -4000), 0).unwrap();
    assert_eq!(p.points, vec![pt(3000, 4000), pt(3000, -4000)]);
    assert_eq!(p.length, 8000);
    assert_eq!(p.length, pt(3000, 4000).distance_to(&pt(3000, -4000)) as u128);
}

#[test]
fn graph_of_two_nodes() {
    let g = graph_of(&[(0, 0), (30, 40)]);
    let p = g.find_shortest_path_with_intermediate_points(&pt(0, 0), &pt(30, 40), 0).unwrap();
    assert_eq!(p.points, vec![pt(0, 0), pt(30, 40)]);
    assert_eq!(p.length, 50);
    assert!(g.find_shortest_path_with_intermediate_points(&pt(0, 0), &pt(30, 40), 1).is_none());
    assert!(g.find_shortest_path_with_intermediate_points(&pt(0, 0), &pt(30, 40), 2).is_none());
}

#[test]
fn infeasible_requests_give_nothing() {
    let g = kite();
    let inside = pt(0, 0);
    let other = pt(10000, 0);
    let outside = pt(1, 1);
    assert!(g.find_shortest_path_with_intermediate_points(&outside, &other, 1).is_none());
    assert!(g.find_shortest_path_with_intermediate_points(&inside, &outside, 1).is_none());
    assert!(g.find_shortest_path_with_intermediate_points(&inside, &other, 4).is_none());
    assert!(g.find_shortest_path_with_intermediate_points(&inside, &other, usize::MAX).is_none());
    assert!(g.find_shortest_path_with_intermediate_points(&inside, &other, 3).is_some());
    assert!(!g.is_feasible(&outside, &other, 0));
    assert!(!g.is_feasible(&inside, &other, 4));
    assert!(g.is_feasible(&inside, &other, 3));
}

#[test]
fn empty_and_single_node_graphs_are_infeasible() {
    let empty = Graph::default();
    assert!(empty.find_shortest_path_with_intermediate_points(&pt(0, 0), &pt(0, 0), 0).is_none());
    let single = graph_of(&[(5, 5)]);
    assert!(single.find_shortest_path_with_intermediate_points(&pt(5, 5), &pt(5, 5), 0).is_none());
}

#[test]
fn greedy_routes_of_the_kite() {
    let g = kite();
    let s = pt(0, 0);
    let d = pt(10000, 0);
    let one = g.find_shortest_path_with_intermediate_points(&s, &d, 1).unwrap();
    assert_eq!(one.points, vec![s, pt(6000, 0), d]);
    assert_eq!(one.length, 10000);
    let two = g.find_shortest_path_with_intermediate_points(&s, &d, 2).unwrap();
    assert_eq!(two.points, vec![s, pt(3000, 4000), pt(6000, 0), d]);
    assert_eq!(two.length, 14000);
    let three = g.find_shortest_path_with_intermediate_points(&s, &d, 3).unwrap();
    assert_eq!(three.points, vec![s, pt(3000, -4000), pt(3000, 4000), pt(6000, 0), d]);
    assert_eq!(three.length, 22000);
}

#[test]
fn equal_detours_go_to_the_earlier_node() {
    let first = graph_of(&[(0, 0), (10, 0), (5, 5), (5, -5)]);
    let p = first.find_shortest_path_with_intermediate_points(&pt(0, 0), &pt(10, 0), 1).unwrap();
    assert_eq!(p.points, vec![pt(0, 0), pt(5, 5), pt(10, 0)]);
    assert_eq!(p.length, 14);
    let second = graph_of(&[(0, 0), (10, 0), (5, -5), (5, 5)]);
    let q = second.find_shortest_path_with_intermediate_points(&pt(0, 0), &pt(10, 0), 1).unwrap();
    assert_eq!(q.points, vec![pt(0, 0), pt(5, -5), pt(10, 0)]);
}

#[test]
fn endpoints_and_cardinality_hold_for_every_k() {
    let g = graph_of(&[(451, 720), (18, 393), (339, 529), (638, 302), (524, 983), (65, 115)]);
    let s = pt(638, 302);
    let d = pt(65, 115);
    for k in 0..=4usize {
        let p = g.find_shortest_path_with_intermediate_points(&s, &d, k).unwrap();
        assert_eq!(p.points.len(), k + 2);
        assert_eq!(p.points[0], s);
        assert_eq!(p.points[k + 1], d);
        for i in 1..=k {
            assert!(g.nodes.contains(&p.points[i]));
            assert_ne!(p.points[i], s);
            assert_ne!(p.points[i], d);
            for j in (i + 1)..=k {
                assert_ne!(p.points[i], p.points[j]);
            }
        }
    }
}

#[test]
fn length_equals_the_length_measured_from_scratch() {
    let g = graph_of(&[(451, 720), (18, 393), (339, 529), (638, 302), (524, 983), (65, 115)]);
    for k in 0..=4usize {
        let p = g.find_shortest_path_with_intermediate_points(&pt(451, 720), &pt(18, 393), k).unwrap();
        assert_eq!(p.length, p.measured_length());
        assert_eq!(p.length, measure(&p.points));
        let mut sum: u128 = 0;
        for i in 1..p.points.len() {
            sum += p.points[i - 1].distance_to(&p.points[i]) as u128;
        }
        assert_eq!(p.length, sum);
    }
}

#[test]
fn greedy_is_deterministic() {
    let g = graph_of(&[(451, 720), (18, 393), (339, 529), (638, 302), (524, 983), (65, 115)]);
    for k in 0..=4usize {
        let a = g.find_shortest_path_with_intermediate_points(&pt(451, 720), &pt(18, 393), k).unwrap();
        let b = g.find_shortest_path_with_intermediate_points(&pt(451, 720), &pt(18, 393), k).unwrap();
        assert_eq!(a.points, b.points);
        assert_eq!(a.length, b.length);
    }
}

#[test]
fn greedy_insertion_gives_positions_and_points() {
    let g = kite();
    let route = g.greedy_insertion(0, 4, 2);
    let ids: Vec<usize> = route.nodes.iter().map(|n| n.id).collect();
    assert_eq!(ids, vec![0, 1, 2, 4]);
    for n in route.nodes.iter() {
        assert_eq!(n.node, g.nodes[n.id]);
    }
    assert_eq!(route.length, 14000);
    let p = route.into_path();
    assert_eq!(p.points, vec![pt(0, 0), pt(3000, 4000), pt(6000, 0), pt(10000, 0)]);
    assert_eq!(p.length, 14000);
}

#[test]
fn round_trip_from_a_node_to_itself() {
    let g = kite();
    let p = g.find_shortest_path_with_intermediate_points(&pt(0, 0), &pt(0, 0), 2).unwrap();
    assert_eq!(p.points, vec![pt(0, 0), pt(6000, 0), pt(3000, 4000), pt(0, 0)]);
    assert_eq!(p.length, 16000);
}

#[test]
fn measure_of_short_routes() {
    assert_eq!(measure(&vec![]), 0);
    assert_eq!(measure(&vec![pt(3, 4)]), 0);
    assert_eq!(measure(&vec![pt(0, 0), pt(3, 4), pt(0, 0)]), 10);
}

#[test]
fn graph_constructor_refuses_a_point_that_stands_twice() {
    assert!(Graph::new(vec![pt(0, 0), pt(1, 1), pt(0, 0)]).is_none());
    let g = Graph::new(vec![pt(0, 0), pt(1, 1), pt(0, 1)]).unwrap();
    assert_eq!(g.nodes.len(), 3);
    assert!(g.is_valid());
    assert!(!graph_of(&[(2, 2), (2, 2)]).is_valid());
    assert_eq!(g.index_of(&pt(1, 1)), Some(1));
    assert_eq!(g.index_of(&pt(9, 9)), None);
    assert_eq!(graph_of(&[(2, 2), (3, 3), (2, 2)]).index_of(&pt(2, 2)), Some(0));
}
