use std::collections::HashSet;

use civilis::graph::Graph;
use civilis::graph::Vertex;
use civilis::parser::is_new_link;
use civilis::parser::parse_root_domain;
use civilis::parser::parse_unique_domains;

const NUM_SHARDS: u64 = 1;
const ROOT_DOMAIN: &str = "https://github.com";

fn as_set(links: Vec<String>) -> HashSet<String> {
    links.into_iter().collect()
}

#[test]
fn parse_unique_no_anchor_tags() {
    let body = "
<html>
    <body>
        <h1>test</h1>
        <p>lorem ipsum</p>
    </body>
</html>
";
    let empty_set: HashSet<String> = HashSet::new(); // empty set
    let mut graph = Graph::new(NUM_SHARDS); // empty graph

    assert_eq!(
        empty_set,
        as_set(parse_unique_domains(
            body.to_string(),
            ROOT_DOMAIN.to_string(),
            &mut graph
        ))
    );
}

#[test]
fn parse_unique_without_href() {
    let body = "
<html>
    <body>
        <h1>test</h1>
        <a>test</a>
    </body>
</html>
";
    let empty_set: HashSet<String> = HashSet::new(); // empty set
    let mut graph = Graph::new(NUM_SHARDS); // empty graph

    assert_eq!(
        empty_set,
        as_set(parse_unique_domains(
            body.to_string(),
            ROOT_DOMAIN.to_string(),
            &mut graph
        ))
    );
}

#[test]
fn parse_unique_multi_domain() {
    let body = r#"
<html>
    <body>
        <h1>test</h1>
        <a href="/">test</a>
        <div>
            <a href="https://www.google.com">Google</a>
            <a href="https://github.com">Github</a>
            <a href="/aboutus">About Us</a>
        </div>
    </body>
</html>
"#;
    let mut set = HashSet::new();
    set.insert("https://www.google.com".to_string());

    let mut graph = Graph::new(NUM_SHARDS);
    graph.add_vertex(Vertex::new("github.com".to_string()));
    assert_eq!(
        set,
        as_set(parse_unique_domains(
            body.to_string(),
            ROOT_DOMAIN.to_string(),
            &mut graph
        ))
    );
}

#[test]
fn is_new_link_relative_url() {
    let mut graph = Graph::new(NUM_SHARDS);
    assert_eq!(None, is_new_link("/", ROOT_DOMAIN.to_string(), &mut graph));
}

#[test]
fn is_new_link_unseen() {
    let mut graph = Graph::new(NUM_SHARDS);
    graph.add_vertex(Vertex::new("github.com".to_string()));

    assert_eq!(
        None,
        is_new_link("https://test.github.com", ROOT_DOMAIN.to_string(), &mut graph)
    );
}

#[test]
fn parse_root_domain_relative_url() {
    let url = "/test";
    assert_eq!(None, parse_root_domain(url));
}

#[test]
fn parse_root_domain_blogspot_domain() {
    let url = "https://www.test.blogspot.com";
    assert_eq!(
        Some("test.blogspot.com".to_string()),
        parse_root_domain(url)
    );
}

#[test]
fn parse_root_domain_google_domain() {
    let url = "https://myaccount.google.com";
    assert_eq!(Some("google.com".to_string()), parse_root_domain(url));
}

#[test]
fn parse_root_domain_relative_path() {
    assert_eq!(None, parse_root_domain("/relative/path"));
}

#[test]
fn is_new_link_admits_and_records_edge() {
    let mut graph = Graph::new(4);
    graph.add_vertex(Vertex::new("github.com".to_string()));

    let admitted = is_new_link(
        "https://www.google.com",
        ROOT_DOMAIN.to_string(),
        &mut graph,
    );

    assert_eq!(Some("https://www.google.com".to_string()), admitted);
    assert!(graph.contains(&"google.com".to_string()));
    assert_eq!(2, graph.size());

    // the same link a second time names a known domain
    let again = is_new_link(
        "https://www.google.com",
        ROOT_DOMAIN.to_string(),
        &mut graph,
    );
    assert_eq!(None, again);
    assert_eq!(2, graph.size());
}

#[test]
fn parse_unique_duplicate_links_admitted_once() {
    let body = r#"
<html>
    <body>
        <a href="https://www.google.com">first</a>
        <a href="https://www.google.com">second</a>
        <a href="https://mail.google.com">same domain</a>
    </body>
</html>
"#;
    let mut graph = Graph::new(2);
    graph.add_vertex(Vertex::new("github.com".to_string()));

    let admitted = parse_unique_domains(body.to_string(), ROOT_DOMAIN.to_string(), &mut graph);

    assert_eq!(vec!["https://www.google.com".to_string()], admitted);
    assert_eq!(2, graph.size());
}

#[test]
fn is_new_link_self_loop_rejected() {
    let mut graph = Graph::new(2);

    // the seed's own domain is new, but the edge would be a self-loop
    let admitted = is_new_link("https://github.com", ROOT_DOMAIN.to_string(), &mut graph);

    assert_eq!(None, admitted);
    // the vertex itself was still recorded
    assert!(graph.contains(&"github.com".to_string()));
}
