use civilis::graph::Graph;
use civilis::graph::GraphError;
use civilis::graph::Vertex;

#[test]
fn display_vertex() {
    // mimics: github.com -> facebook.com -> stackoverflow.com
    let src = Vertex::new("github.com".to_string());
    let mut mid = Vertex::new("facebook.com".to_string());
    let dst = Vertex::new("stackoverflow.com".to_string());

    mid.add_incoming(&src);
    mid.add_outgoing(&dst);

    assert_eq!(mid.serialize(), "facebook.com (in 1, out 1)");
}

#[test]
fn add_outgoing_self_loop_vertex() {
    let mut vertex = Vertex::new("github.com".to_string());

    let cloned_vertex = vertex.clone();
    let was_added = vertex.add_outgoing(&cloned_vertex);

    assert!(!was_added);

    assert_eq!(vertex.out_degree(), 0);
}

#[test]
fn add_outgoing_vertex() {
    let mut src = Vertex::new("github.com".to_string());
    let dst = Vertex::new("stackoverflow.com".to_string());

    src.add_outgoing(&dst);

    assert_eq!(src.out_degree(), 1);
}

#[test]
fn add_incoming_self_loop_vertex() {
    let mut vertex = Vertex::new("github.com".to_string());

    let cloned_vertex = vertex.clone();
    let was_added = vertex.add_incoming(&cloned_vertex);

    assert!(!was_added);

    assert_eq!(vertex.in_degree(), 0);
}

#[test]
fn add_incoming_vertex() {
    let mut src = Vertex::new("github.com".to_string());
    let dst = Vertex::new("stackoverflow.com".to_string());

    src.add_incoming(&dst);

    assert_eq!(src.in_degree(), 1);
}

fn init_empty_graph(num_shards: u64) -> Graph {
    Graph::new(num_shards)
}

fn init_non_empty_graph(num_values: usize, num_shards: u64) -> Graph {
    let mut graph = Graph::new(num_shards);

    for i in 0..num_values {
        graph.add_vertex(Vertex::new(format!("{} val", i)));
    }

    graph
}

#[test]
fn size_graph_empty() {
    let graph = init_empty_graph(1);
    assert_eq!(0, graph.size());
}

#[test]
fn size_graph_non_empty() {
    let num_values = 10;
    let graph = init_non_empty_graph(num_values, 1);
    assert_eq!(num_values, graph.size());
}

#[test]
fn contains_graph() {
    let graph = init_empty_graph(10);
    assert!(!graph.contains(&String::from("github.com")));
}

#[test]
fn add_vertex_graph() {
    let mut graph = init_empty_graph(10);

    let domain = String::from("github.com");

    graph.add_vertex(Vertex::new(domain.clone()));
    assert!(graph.contains(&domain));
}

#[test]
fn add_edge_graph() {
    let mut graph = init_empty_graph(10);

    let src = String::from("github.com");
    let dst = String::from("google.com");

    graph.add_vertex(Vertex::new(src.clone()));
    graph.add_vertex(Vertex::new(dst.clone()));

    graph.add_edge(&src, &dst).unwrap(); // if Err -> test FAIL

    graph.serialize();
}

#[test]
#[should_panic]
fn add_edge_missing_vertex_graph() {
    let mut graph = init_empty_graph(10);

    let src = String::from("github.com");
    let dst = String::from("stackoverflow.com");

    graph.add_vertex(Vertex::new(src.clone()));

    graph.add_edge(&src, &dst).unwrap(); // will panic!
}

#[test]
fn add_edge_self_loop_existing_and_missing() {
    let mut graph = Graph::new(4);
    let d = String::from("github.com");

    // self-loop refused even before the domain exists
    assert_eq!(Err(GraphError::SelfLoop), graph.add_edge(&d, &d));

    graph.add_vertex(Vertex::new(d.clone()));

    // and still refused once it does
    assert_eq!(Err(GraphError::SelfLoop), graph.add_edge(&d, &d));
}

#[test]
fn add_edge_missing_vertex_leaves_lists_untouched() {
    let mut graph = Graph::new(1);
    let present = String::from("github.com");
    let absent = String::from("stackoverflow.com");

    graph.add_vertex(Vertex::new(present.clone()));

    assert_eq!(Err(GraphError::MissingVertex), graph.add_edge(&present, &absent));
    assert_eq!(Err(GraphError::MissingVertex), graph.add_edge(&absent, &present));

    // the one vertex kept both degrees at zero
    assert_eq!("github.com (in 0, out 0)\n", graph.serialize());
}

#[test]
fn size_graph_many_shard_counts() {
    for shards in [1, 3, 16] {
        let graph = init_non_empty_graph(10, shards);
        assert_eq!(10, graph.size());
    }
}

#[test]
fn add_vertex_is_idempotent() {
    let mut graph = Graph::new(8);
    let a = String::from("github.com");
    let b = String::from("google.com");

    graph.add_vertex(Vertex::new(a.clone()));
    graph.add_vertex(Vertex::new(b.clone()));
    graph.add_edge(&a, &b).unwrap();

    // a second vertex for the same domain does not overwrite the first
    graph.add_vertex(Vertex::new(a.clone()));
    assert_eq!(2, graph.size());
    let text = graph.serialize();
    assert!(text.contains("github.com (in 0, out 1)"));
    assert!(text.contains("google.com (in 1, out 0)"));
}

#[test]
fn serialize_graph_single_shard() {
    let mut graph = Graph::new(1);
    let src = String::from("github.com");
    let dst = String::from("google.com");

    graph.add_vertex(Vertex::new(src.clone()));
    graph.add_vertex(Vertex::new(dst.clone()));
    graph.add_edge(&src, &dst).unwrap();

    assert_eq!(
        "github.com (in 0, out 1)\ngoogle.com (in 1, out 0)\n",
        graph.serialize()
    );
}
