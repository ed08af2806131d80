use lod_cloud_draw::data::{Dataset, IntLike, Link};
use lod_cloud_draw::graph::{build_graph, build_graph2, has_edge, Edge, Graph, Model};
use lod_cloud_draw::settings::Settings;

fn dataset(identifier: &str, domain: &str, targets: &[&str]) -> (String, Dataset) {
    let links = targets
        .iter()
        .map(|t| Link { target: t.to_string(), value: "1".to_string() })
        .collect();
    (
        identifier.to_string(),
        Dataset {
            description: Vec::new(),
            title: None,
            links,
            identifier: identifier.to_string(),
            domain: domain.to_string(),
            triples: IntLike::from(0),
            keywords: Vec::new(),
        },
    )
}

fn settings(selection: Option<&str>, selected: Option<&str>, hops: Option<u32>) -> Settings<f64> {
    Settings {
        legend: Vec::new(),
        fixed_points: Vec::new(),
        selection: selection.map(|s| s.to_string()),
        selected: selected.map(|s| s.to_string()),
        hops,
        datasets: None,
        rights_text: None,
        logo_link: None,
        logo_width: None,
        bubble_size_factor: None,
    }
}

fn names(g: &Graph) -> Vec<String> {
    (0..g.n).map(|i| g.vertex_name(i).unwrap()).collect()
}

fn chain() -> Graph {
    let mut g = Graph::new();
    let a = g.add_vertex("a");
    let b = g.add_vertex("b");
    let c = g.add_vertex("c");
    let d = g.add_vertex("d");
    g.edges.push(Edge::new(a, b));
    g.edges.push(Edge::new(b, c));
    g.edges.push(Edge::new(c, d));
    g
}

#[test]
fn new_graph_is_empty() {
    let g = Graph::new();
    assert_eq!(g.n, 0);
    assert!(g.edges.is_empty());
    assert_eq!(g.vertex_name(0), None);
}

#[test]
fn add_vertex_twice_gives_one_vertex() {
    let mut g = Graph::new();
    let first = g.add_vertex("x");
    let second = g.add_vertex("x");
    assert_eq!(first, 0);
    assert_eq!(second, 0);
    assert_eq!(g.n, 1);
    let other = g.add_vertex("y");
    assert_eq!(other, 1);
    assert_eq!(g.add_vertex("x"), 0);
    assert_eq!(g.n, 2);
}

#[test]
fn vertex_names_follow_ids() {
    let mut g = Graph::new();
    let a = g.add_vertex("a");
    let b = g.add_vertex("b");
    g.edges.push(Edge::new(a, b));
    assert_eq!(g.vertex_name(0), Some("a".to_string()));
    assert_eq!(g.vertex_name(1), Some("b".to_string()));
    assert_eq!(g.vertex_name(2), None);
    assert_eq!(g.find_vertex("b"), Some(1));
    assert_eq!(g.find_vertex("c"), None);
    assert_eq!(g.edges, vec![Edge { src: 0, trg: 1 }]);
}

#[test]
fn edges_are_found() {
    let edges = vec![Edge::new(0, 1), Edge::new(2, 1)];
    assert!(has_edge(&edges, Edge::new(2, 1)));
    assert!(!has_edge(&edges, Edge::new(1, 2)));
    assert!(!has_edge(&Vec::new(), Edge::new(0, 0)));
}

#[test]
fn fixed_points_are_set() {
    let g = chain();
    let loc = vec![1.0, 2.0, 3.0, 4.0, 5.0, 6.0, 7.0, 8.0];
    let fixed = vec![
        ("c".to_string(), (-1.5, 2.5)),
        ("nobody".to_string(), (9.0, 9.0)),
        ("a".to_string(), (0.25, 0.5)),
    ];
    let out = g.set_fixed_points(loc, &fixed);
    assert_eq!(out, vec![0.25, 0.5, 3.0, 4.0, -1.5, 2.5, 7.0, 8.0]);
}

#[test]
fn later_fixed_point_wins() {
    let g = chain();
    let loc = vec![0.0; 8];
    let fixed = vec![("b".to_string(), (1.0, 1.0)), ("b".to_string(), (2.0, 3.0))];
    let out = g.set_fixed_points(loc, &fixed);
    assert_eq!(out, vec![0.0, 0.0, 2.0, 3.0, 0.0, 0.0, 0.0, 0.0]);
}

#[test]
fn fixed_points_have_no_gradient() {
    let g = chain();
    let gradient = vec![1.0, -2.0, 3.5, f64::INFINITY, f64::NAN, 6.0, -7.0, 8.0];
    let fixed = vec![("b".to_string(), (10.0, 20.0)), ("elsewhere".to_string(), (0.0, 0.0)), ("c".to_string(), (1.0, 1.0))];
    let out = g.zero_fixed_points(gradient, &fixed, 0.0);
    assert_eq!(out, vec![1.0, -2.0, 0.0, 0.0, 0.0, 0.0, -7.0, 8.0]);
}

#[test]
fn no_fixed_points_change_nothing() {
    let g = chain();
    let loc = vec![1.0, 2.0, 3.0, 4.0, 5.0, 6.0, 7.0, 8.0];
    let fixed: Vec<(String, (f64, f64))> = Vec::new();
    assert_eq!(g.set_fixed_points(loc.clone(), &fixed), loc);
    assert_eq!(g.zero_fixed_points(loc.clone(), &fixed, 0.0), loc);
}

#[test]
fn subgraph_of_unknown_name_is_empty() {
    let g = chain();
    let sub = g.subgraph("nobody", 3);
    assert_eq!(sub.n, 0);
    assert!(sub.edges.is_empty());
}

#[test]
fn subgraph_without_hops_is_empty() {
    let g = chain();
    let sub = g.subgraph("b", 0);
    assert_eq!(sub.n, 0);
    assert!(sub.edges.is_empty());
}

#[test]
fn subgraph_of_one_hop_holds_the_edges_at_the_root() {
    let g = chain();
    let sub = g.subgraph("b", 1);
    assert_eq!(names(&sub), vec!["a", "b", "c"]);
    assert_eq!(sub.edges, vec![Edge::new(0, 1), Edge::new(1, 2)]);
}

#[test]
fn subgraph_of_two_hops_goes_one_vertex_further() {
    let g = chain();
    let sub = g.subgraph("a", 2);
    assert_eq!(names(&sub), vec!["a", "b", "c"]);
    assert_eq!(sub.edges, vec![Edge::new(0, 1), Edge::new(1, 2)]);
    let all = g.subgraph("a", 3);
    assert_eq!(names(&all), vec!["a", "b", "c", "d"]);
    assert_eq!(all.edges, vec![Edge::new(0, 1), Edge::new(1, 2), Edge::new(2, 3)]);
}

#[test]
fn subgraph_copies_no_edge_twice() {
    let mut g = Graph::new();
    let a = g.add_vertex("a");
    let b = g.add_vertex("b");
    g.edges.push(Edge::new(a, b));
    g.edges.push(Edge::new(a, b));
    g.edges.push(Edge::new(b, a));
    let sub = g.subgraph("a", 4);
    assert_eq!(names(&sub), vec!["a", "b"]);
    assert_eq!(sub.edges, vec![Edge::new(0, 1), Edge::new(1, 0)]);
}

#[test]
fn subgraph2_adds_to_what_is_there() {
    let g = chain();
    let mut sub = Graph::new();
    sub.add_vertex("z");
    g.subgraph2(3, 1, &mut sub);
    assert_eq!(names(&sub), vec!["z", "c", "d"]);
    assert_eq!(sub.edges, vec![Edge::new(1, 2)]);
}

#[test]
fn graph_holds_linked_datasets_only() {
    let data = vec![
        dataset("one", "x", &["two", "missing"]),
        dataset("lonely", "x", &["missing"]),
        dataset("two", "y", &[]),
        dataset("three", "y", &["one", "one"]),
    ];
    let g = build_graph2(&data);
    assert_eq!(names(&g), vec!["one", "two", "three"]);
    assert_eq!(g.edges, vec![Edge::new(0, 1), Edge::new(2, 0), Edge::new(2, 0)]);
}

#[test]
fn graph_of_no_data_is_empty() {
    let g = build_graph2(&Vec::new());
    assert_eq!(g.n, 0);
    assert!(g.edges.is_empty());
}

#[test]
fn selection_of_all_builds_the_whole_graph() {
    let data = vec![dataset("a", "x", &["b"]), dataset("b", "y", &["c"]), dataset("c", "y", &[])];
    let whole = build_graph2(&data);
    assert_eq!(build_graph(&data, &settings(None, None, None)), whole);
    assert_eq!(build_graph(&data, &settings(Some("all"), Some("a"), None)), whole);
    assert_eq!(build_graph(&data, &settings(Some("dataset"), None, None)), whole);
}

#[test]
fn selection_of_a_dataset_takes_two_hops_unless_told() {
    let data = vec![
        dataset("a", "x", &["b"]),
        dataset("b", "y", &["c"]),
        dataset("c", "y", &["d"]),
        dataset("d", "y", &[]),
    ];
    let g = build_graph(&data, &settings(Some("dataset"), Some("a"), None));
    assert_eq!(names(&g), vec!["a", "b", "c"]);
    assert_eq!(g.edges, vec![Edge::new(0, 1), Edge::new(1, 2)]);
    let near = build_graph(&data, &settings(Some("dataset"), Some("a"), Some(1)));
    assert_eq!(names(&near), vec!["a", "b"]);
    let none = build_graph(&data, &settings(Some("dataset"), Some("zz"), Some(1)));
    assert_eq!(none.n, 0);
}

#[test]
fn selection_of_a_domain_keeps_its_datasets() {
    let data = vec![
        dataset("a", "x", &["b", "c"]),
        dataset("b", "y", &["c"]),
        dataset("c", "y", &["b"]),
    ];
    let g = build_graph(&data, &settings(Some("domain"), Some("y"), None));
    assert_eq!(names(&g), vec!["b", "c"]);
    assert_eq!(g.edges, vec![Edge::new(0, 1), Edge::new(1, 0)]);
    let mut with_a = settings(Some("domain"), Some("y"), None);
    with_a.datasets = Some(vec!["a".to_string()]);
    let g = build_graph(&data, &with_a);
    assert_eq!(names(&g), vec!["a", "b", "c"]);
    assert_eq!(g.edges, vec![Edge::new(0, 1), Edge::new(0, 2), Edge::new(1, 2), Edge::new(2, 1)]);
}

#[test]
fn model_starts_from_nothing() {
    let m: Model<f64> = Default::default();
    assert_eq!(m.spring, 0.0);
    assert_eq!(m.n_blocks, 0);
}

#[test]
fn well_formed_graphs_are_told_from_others() {
    let mut g = chain();
    assert!(g.is_well_formed());
    assert!(Graph::new().is_well_formed());
    g.edges.push(Edge::new(0, 4));
    assert!(!g.is_well_formed());
    g.edges.pop();
    g.edges.push(Edge::new(4, 0));
    assert!(!g.is_well_formed());
    g.edges.pop();
    assert!(g.is_well_formed());
    g.names.push("a".to_string());
    assert!(!g.is_well_formed());
    g.n = 5;
    assert!(!g.is_well_formed());
    g.names[4] = "e".to_string();
    assert!(g.is_well_formed());
}
