use waypaths::data::Point;
use waypaths::graph::distance_index;
use waypaths::graph::full_distance_index;
use waypaths::graph::get_all_distances_for_node;
use waypaths::graph::make_nodes;
use waypaths::graph::MapNode;

fn pt(x: i32, y: i32) -> Point {
    Point { x, y }
}

fn corners() -> Vec<Point> {
    vec![pt(0, 0), pt(3, 4), pt(6, 0), pt(3, -4)]
}

#[test]
fn nodes_are_numbered_in_order() {
    let nodes = make_nodes(&corners());
    assert_eq!(nodes.len(), 4);
    for (i, node) in nodes.iter().enumerate() {
        assert_eq!(node.id, i);
        assert_eq!(node.node, corners()[i]);
    }
    assert!(make_nodes(&vec![]).is_empty());
}

#[test]
fn distances_of_one_node() {
    let nodes = make_nodes(&corners());
    assert_eq!(get_all_distances_for_node(&nodes, &nodes[0]), vec![0, 5, 6, 5]);
    assert_eq!(get_all_distances_for_node(&nodes, &nodes[1]), vec![5, 0, 5, 8]);
    let outside = MapNode { id: 9, node: pt(3, 0) };
    assert_eq!(get_all_distances_for_node(&nodes, &outside), vec![3, 4, 3, 4]);
}

#[test]
fn distances_of_chosen_anchors() {
    let nodes = make_nodes(&corners());
    let anchors = vec![nodes[0], nodes[2]];
    let rows = distance_index(&nodes, &anchors);
    assert_eq!(rows, vec![vec![0, 5, 6, 5], vec![6, 5, 0, 5]]);
    let none: Vec<Vec<u64>> = vec![];
    assert_eq!(distance_index(&nodes, &vec![]), none);
}

#[test]
fn full_table_is_symmetric_with_a_zero_diagonal() {
    let rows = full_distance_index(&corners());
    assert_eq!(rows, vec![vec![0, 5, 6, 5], vec![5, 0, 5, 8], vec![6, 5, 0, 5], vec![5, 8, 5, 0]]);
    for i in 0..4 {
        assert_eq!(rows[i][i], 0);
        for j in 0..4 {
            assert_eq!(rows[i][j], rows[j][i]);
        }
    }
}
