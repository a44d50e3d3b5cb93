use waypaths::data::Point;
use waypaths::graph::Graph;

fn pt(x: i32, y: i32) -> Point {
    Point { x, y }
}

fn graph_of(points: &[(i32, i32)]) -> Graph {
    Graph { nodes: points.iter().map(|p| pt(p.0, p.1)).collect() }
}

fn scattered() -> Graph {
    graph_of(&[(451, 720), (18, 393), (339, 529), (638, 302), (524, 983), (65, 115)])
}

#[test]
fn preprocessor_ranks_by_the_way_over_a_node() {
    let g = scattered();
    let s = pt(451, 720);
    let d = pt(18, 393);
    assert_eq!(g.preprocess_candidates(&s, &d, 0), Some(vec![]));
    assert_eq!(g.preprocess_candidates(&s, &d, 2), Some(vec![2, 5]));
    assert_eq!(g.preprocess_candidates(&s, &d, 4), Some(vec![2, 5, 4, 3]));
    assert_eq!(g.preprocess_candidates(&s, &d, 5), None);
    assert_eq!(g.preprocess_candidates(&pt(0, 0), &d, 1), None);
    assert_eq!(g.preprocess_candidates(&s, &pt(0, 0), 1), None);
}

#[test]
fn preprocessor_breaks_ties_by_position() {
    let g = graph_of(&[(0, 0), (3000, 4000), (6000, 0), (3000, -4000), (10000, 0)]);
    assert_eq!(g.preprocess_candidates(&pt(0, 0), &pt(10000, 0), 3), Some(vec![2, 1, 3]));
    assert_eq!(g.rank_between(0, 4, 2), vec![2, 1]);
}

#[test]
fn reduced_graph_holds_ends_and_candidates() {
    let g = scattered();
    let small = g.reduced(0, 1, &vec![2, 5]);
    assert_eq!(small.nodes, vec![pt(451, 720), pt(18, 393), pt(339, 529), pt(65, 115)]);
}

#[test]
fn fast_variant_on_the_scattered_graph() {
    let g = scattered();
    let s = pt(451, 720);
    let d = pt(18, 393);
    let p = g.find_shortest_path_with_intermediate_points_fast(&s, &d, 2).unwrap();
    assert_eq!(p.points, vec![s, pt(339, 529), pt(65, 115), d]);
    assert_eq!(p.length, 998);
    assert_eq!(p.length, p.measured_length());
}

#[test]
fn fast_variant_infeasible_requests_give_nothing() {
    let g = scattered();
    let s = pt(451, 720);
    let d = pt(18, 393);
    assert!(g.find_shortest_path_with_intermediate_points_fast(&pt(1, 1), &d, 1).is_none());
    assert!(g.find_shortest_path_with_intermediate_points_fast(&s, &pt(1, 1), 1).is_none());
    assert!(g.find_shortest_path_with_intermediate_points_fast(&s, &d, 5).is_none());
    assert!(g.find_shortest_path_with_intermediate_points_fast(&s, &d, 4).is_some());
    let two = graph_of(&[(0, 0), (30, 40)]);
    let p = two.find_shortest_path_with_intermediate_points_fast(&pt(0, 0), &pt(30, 40), 0).unwrap();
    assert_eq!(p.points, vec![pt(0, 0), pt(30, 40)]);
    assert_eq!(p.length, 50);
    assert!(two.find_shortest_path_with_intermediate_points_fast(&pt(0, 0), &pt(30, 40), 1).is_none());
}

#[test]
fn fast_variant_endpoints_and_cardinality() {
    let g = scattered();
    let s = pt(638, 302);
    let d = pt(65, 115);
    for k in 0..=4usize {
        let p = g.find_shortest_path_with_intermediate_points_fast(&s, &d, k).unwrap();
        assert_eq!(p.points.len(), k + 2);
        assert_eq!(p.points[0], s);
        assert_eq!(p.points[k + 1], d);
        assert_eq!(p.length, p.measured_length());
        for i in 1..=k {
            assert!(g.nodes.contains(&p.points[i]));
            assert_ne!(p.points[i], s);
            assert_ne!(p.points[i], d);
            for j in (i + 1)..=k {
                assert_ne!(p.points[i], p.points[j]);
            }
        }
    }
}

#[test]
fn fast_variant_equals_greedy_up_to_one_intermediate() {
    let g = scattered();
    for a in 0..g.nodes.len() {
        for b in 0..g.nodes.len() {
            if a == b {
                continue;
            }
            for k in 0..=1usize {
                let fast = g.find_shortest_path_with_intermediate_points_fast(&g.nodes[a], &g.nodes[b], k).unwrap();
                let direct = g.find_shortest_path_with_intermediate_points(&g.nodes[a], &g.nodes[b], k).unwrap();
                assert_eq!(fast.points, direct.points);
                assert!(fast.length >= direct.length);
            }
        }
    }
}

#[test]
fn fast_variant_can_be_shorter_with_two_intermediates() {
    let g = scattered();
    let s = pt(451, 720);
    let d = pt(18, 393);
    let fast = g.find_shortest_path_with_intermediate_points_fast(&s, &d, 2).unwrap();
    let direct = g.find_shortest_path_with_intermediate_points(&s, &d, 2).unwrap();
    assert_eq!(direct.points, vec![s, pt(524, 983), pt(339, 529), d]);
    assert_eq!(direct.length, 1110);
    assert_eq!(fast.length, 998);
}

#[test]
fn fast_variant_with_all_candidates() {
    let g = scattered();
    let s = pt(451, 720);
    let d = pt(18, 393);
    let fast = g.find_shortest_path_with_intermediate_points_fast(&s, &d, 4).unwrap();
    assert_eq!(fast.points, vec![s, pt(524, 983), pt(339, 529), pt(638, 302), pt(65, 115), d]);
    assert_eq!(fast.length, 2020);
}

#[test]
fn fast_variant_equals_greedy_where_the_direct_route_is_kept() {
    // no two nodes tie on an edge, and the three nodes that the greedy
    // constructor picks are the three that the preprocessor ranks first
    let g = graph_of(&[(243, 606), (557, 133), (378, 937), (618, 485), (640, 594), (67, 620), (13, 930)]);
    let s = pt(243, 606);
    let d = pt(557, 133);
    let direct = g.find_shortest_path_with_intermediate_points(&s, &d, 3).unwrap();
    let fast = g.find_shortest_path_with_intermediate_points_fast(&s, &d, 3).unwrap();
    assert_eq!(direct.points, vec![s, pt(67, 620), pt(640, 594), pt(618, 485), d]);
    assert_eq!(direct.length, 1217);
    assert_eq!(fast.points, direct.points);
    assert!(fast.length >= direct.length);
    let mut kept = g.preprocess_candidates(&s, &d, 3).unwrap();
    kept.sort();
    assert_eq!(kept, vec![3, 4, 5]);
}

#[test]
fn request_ends_are_located() {
    let g = graph_of(&[(1, 1), (2, 2), (1, 1), (3, 3)]);
    assert_eq!(g.locate(&pt(1, 1), &pt(3, 3), 2), Some((0, 3)));
    assert_eq!(g.locate(&pt(3, 3), &pt(1, 1), 0), Some((3, 0)));
    assert_eq!(g.locate(&pt(1, 1), &pt(3, 3), 3), None);
    assert_eq!(g.locate(&pt(9, 9), &pt(3, 3), 0), None);
    assert_eq!(g.locate(&pt(1, 1), &pt(9, 9), 0), None);
}
