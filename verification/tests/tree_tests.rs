use lod_cloud_draw::graph::{Edge, Graph};
use lod_cloud_draw::tree::{adjacency_lists, build_tree, most_connected, Placement, Tree};
use std::f64::consts::PI;

fn to_angle(x: f64, y: f64) -> f64 {
    if x > 0.0 {
        if y > 0.0 {
            (y / x).atan()
        } else if y < 0.0 {
            2.0 * PI + (y / x).atan()
        } else {
            0.0
        }
    } else if x < 0.0 {
        if y != 0.0 {
            PI + (y / x).atan()
        } else {
            PI
        }
    } else if y > 0.0 {
        PI / 2.0
    } else if y < 0.0 {
        3.0 * PI / 2.0
    } else {
        0.0
    }
}

fn lay_out(tree: &Tree, n: usize, radius: f64) -> Vec<f64> {
    let mut loc = vec![0.0f64; n * 2];
    for p in tree.placed.iter() {
        let (px, py) = (loc[p.parent * 2], loc[p.parent * 2 + 1]);
        let astep = if p.parent == tree.root {
            2.0 * PI / (p.fan as f64)
        } else {
            PI / ((p.fan + 1) as f64)
        };
        let angle = to_angle(px, py) - PI / 2.0 + (p.step as f64) * astep;
        loc[p.vertex * 2] = px + radius * angle.cos();
        loc[p.vertex * 2 + 1] = py + radius * angle.sin();
    }
    loc
}

fn star() -> Graph {
    let mut g = Graph::new();
    let v1 = g.add_vertex("v1");
    let v2 = g.add_vertex("v2");
    let v3 = g.add_vertex("v3");
    let v4 = g.add_vertex("v4");
    let v5 = g.add_vertex("v5");
    g.edges.push(Edge::new(v1, v2));
    g.edges.push(Edge::new(v1, v3));
    g.edges.push(Edge::new(v1, v4));
    g.edges.push(Edge::new(v4, v5));
    g
}

fn placement(vertex: usize, parent: usize, step: usize, fan: usize) -> Placement {
    Placement { vertex, parent, step, fan }
}

#[test]
fn test_tree() {
    let g = star();

    let result = lay_out(&build_tree(&g), g.n, 10.0);

    let exp = [
        0.0,
        0.0,
        10.0 * (PI / 6.0).cos(),
        10.0 * (PI / 6.0).sin(),
        -10.0 * (PI / 6.0).cos(),
        10.0 * (PI / 6.0).sin(),
        0.0,
        -10.0,
        0.0,
        -20.0,
    ];

    assert_eq!(result.len(), exp.len());
    for i in 0..exp.len() {
        println!("{}: {:.3} == {:.3}", i, exp[i], result[i]);
        assert!((exp[i] - result[i]).abs() < 1e-4);
    }
}

#[test]
fn tree_of_the_star_is_rooted_in_its_middle() {
    let tree = build_tree(&star());
    assert_eq!(tree.root, 0);
    assert_eq!(
        tree.placed,
        vec![placement(1, 0, 1, 3), placement(2, 0, 2, 3), placement(3, 0, 3, 3), placement(4, 3, 1, 1)]
    );
}

#[test]
fn neighbours_are_listed_for_both_ends() {
    let g = star();
    assert_eq!(adjacency_lists(&g), vec![vec![1, 2, 3], vec![0], vec![0], vec![0, 4], vec![3]]);
    let mut looped = Graph::new();
    let a = looped.add_vertex("a");
    looped.edges.push(Edge::new(a, a));
    assert_eq!(adjacency_lists(&looped), vec![vec![0, 0]]);
}

#[test]
fn first_of_the_most_connected_is_the_root() {
    assert_eq!(most_connected(&vec![vec![1], vec![0, 2], vec![1, 3], vec![2]]), 1);
    assert_eq!(most_connected(&vec![vec![], vec![], vec![]]), 0);
    assert_eq!(most_connected(&vec![vec![], vec![2, 2], vec![1, 1]]), 1);
}

#[test]
fn tree_of_a_single_vertex_places_nothing() {
    let mut g = Graph::new();
    g.add_vertex("alone");
    let tree = build_tree(&g);
    assert_eq!(tree, Tree { root: 0, placed: Vec::new() });
}

#[test]
fn tree_leaves_unreached_vertices_out() {
    let mut g = Graph::new();
    let a = g.add_vertex("a");
    let b = g.add_vertex("b");
    let c = g.add_vertex("c");
    let d = g.add_vertex("d");
    g.add_vertex("e");
    g.edges.push(Edge::new(c, d));
    g.edges.push(Edge::new(a, b));
    let tree = build_tree(&g);
    assert_eq!(tree.root, 0);
    assert_eq!(tree.placed, vec![placement(1, 0, 1, 1)]);
    let loc = lay_out(&tree, g.n, 10.0);
    assert_eq!(&loc[4..], &[0.0; 6]);
}

#[test]
fn tree_of_a_cycle_places_each_vertex_once() {
    let mut g = Graph::new();
    let a = g.add_vertex("a");
    let b = g.add_vertex("b");
    let c = g.add_vertex("c");
    let d = g.add_vertex("d");
    g.edges.push(Edge::new(a, b));
    g.edges.push(Edge::new(b, c));
    g.edges.push(Edge::new(c, d));
    g.edges.push(Edge::new(d, a));
    let tree = build_tree(&g);
    assert_eq!(tree.root, 0);
    assert_eq!(tree.placed, vec![placement(1, 0, 1, 2), placement(2, 1, 1, 1), placement(3, 0, 2, 2)]);
}

#[test]
fn tree_places_a_vertex_for_each_edge_that_reaches_it() {
    let mut g = Graph::new();
    let a = g.add_vertex("a");
    let b = g.add_vertex("b");
    let c = g.add_vertex("c");
    g.edges.push(Edge::new(a, b));
    g.edges.push(Edge::new(b, a));
    g.edges.push(Edge::new(b, c));
    let tree = build_tree(&g);
    assert_eq!(tree.root, 1);
    assert_eq!(tree.placed, vec![placement(0, 1, 1, 3), placement(0, 1, 2, 3), placement(2, 1, 3, 3)]);
}

#[test]
fn tree_goes_deep_before_it_goes_on() {
    let mut g = Graph::new();
    let a = g.add_vertex("a");
    let b = g.add_vertex("b");
    let c = g.add_vertex("c");
    let d = g.add_vertex("d");
    let e = g.add_vertex("e");
    g.edges.push(Edge::new(a, b));
    g.edges.push(Edge::new(a, c));
    g.edges.push(Edge::new(b, d));
    g.edges.push(Edge::new(c, d));
    g.edges.push(Edge::new(d, e));
    g.edges.push(Edge::new(a, e));
    let tree = build_tree(&g);
    assert_eq!(tree.root, 0);
    assert_eq!(
        tree.placed,
        vec![placement(1, 0, 1, 3), placement(3, 1, 1, 1), placement(2, 0, 2, 3), placement(4, 0, 3, 3)]
    );
}
