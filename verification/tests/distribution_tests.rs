use company_graph::distribution::count_edges;
use company_graph::distribution::find_degree_distribution;
use company_graph::graph::Company;
use company_graph::graph::CompanyConnection;
use company_graph::graph::EdgeTypes;
use company_graph::graph::Graph;

fn company(name: &str, domain: &str) -> Company {
    Company { name: name.to_string(), domain_name: domain.to_string() }
}

fn connection(id: &str, tail: &Company, head: &Company, edge: EdgeTypes) -> CompanyConnection {
    CompanyConnection {
        id: id.to_string(),
        tail: tail.clone(),
        head: head.clone(),
        edge,
        update_time: "2021-04-01".to_string(),
    }
}

fn create_mock_graph() -> Graph {
    let company_a = company("CompanyA", "companya.com");
    let company_b = company("CompanyB", "companyb.com");
    let mut graph = Graph::new();
    graph.add_connection(connection("1", &company_a, &company_b, EdgeTypes::Customer));
    graph
}

#[test]
fn test_count_edges() {
    let graph = create_mock_graph();
    let company = company("CompanyA", "companya.com");
    let edges = Some(vec![EdgeTypes::Customer, EdgeTypes::Supplier]);
    let degree_limit = 1;

    let edge_count = count_edges(&graph, &degree_limit, &company, &edges);

    assert_eq!(edge_count, 1, "The edge count should be 1 for one direct connection.");
}

#[test]
fn test_find_degree_distribution() {
    let graph = create_mock_graph();
    let degree_limit = 1;
    let edges = Some(vec![EdgeTypes::Customer, EdgeTypes::Supplier]);

    let distribution = find_degree_distribution(&graph, &degree_limit, &edges);

    assert_eq!(
        distribution,
        vec![0, 2],
        "There should be two companies each with one connection within one degree."
    );
}

#[test]
fn test_zero_hops_reaches_nothing() {
    let graph = create_mock_graph();
    let start = company("CompanyA", "companya.com");
    assert_eq!(count_edges(&graph, &0, &start, &None), 0);
    assert_eq!(count_edges(&graph, &0, &start, &Some(vec![EdgeTypes::Customer])), 0);
}

#[test]
fn test_missing_company_reaches_nothing() {
    let graph = create_mock_graph();
    let stranger = company("Nobody", "nowhere.example");
    assert_eq!(count_edges(&graph, &3, &stranger, &None), 0);
}

#[test]
fn test_hop_limit_monotonic_on_chain() {
    // A - B - C: from A one company lies within one hop, two within two.
    let a = company("A", "a.com");
    let b = company("B", "b.com");
    let c = company("C", "c.com");
    let mut graph = Graph::new();
    graph.add_connection(connection("1", &a, &b, EdgeTypes::Customer));
    graph.add_connection(connection("2", &b, &c, EdgeTypes::Customer));

    assert_eq!(count_edges(&graph, &0, &a, &None), 0);
    assert_eq!(count_edges(&graph, &1, &a, &None), 1);
    assert_eq!(count_edges(&graph, &2, &a, &None), 2);
    assert_eq!(count_edges(&graph, &3, &a, &None), 2);
}

#[test]
fn test_parallel_edges_counted_once() {
    // two distinct relationships joining the same pair of companies
    let a = company("A", "a.com");
    let b = company("B", "b.com");
    let mut graph = Graph::new();
    graph.add_connection(connection("1", &a, &b, EdgeTypes::Customer));
    graph.add_connection(connection("2", &a, &b, EdgeTypes::Partner));

    assert_eq!(count_edges(&graph, &2, &a, &None), 1);
    assert_eq!(find_degree_distribution(&graph, &2, &None), vec![0, 2]);
}

#[test]
fn test_histogram_conservation() {
    let a = company("A", "a.com");
    let b = company("B", "b.com");
    let c = company("C", "c.com");
    let d = company("D", "d.com");
    let mut graph = Graph::new();
    graph.add_connection(connection("1", &a, &b, EdgeTypes::Customer));
    graph.add_connection(connection("2", &a, &c, EdgeTypes::Investor));
    graph.add_connection(connection("3", &d, &a, EdgeTypes::Competitor));

    for hop_limit in 0..4 {
        let histogram = find_degree_distribution(&graph, &hop_limit, &None);
        let total: usize = histogram.iter().sum();
        assert_eq!(total, graph.nodes.len());
    }
}

#[test]
fn test_filter_exclusion() {
    // the only stored kind is excluded by the filter: every count is zero
    let graph = create_mock_graph();
    let edges = Some(vec![EdgeTypes::Partner]);
    let a = company("CompanyA", "companya.com");
    let b = company("CompanyB", "companyb.com");

    assert_eq!(count_edges(&graph, &1, &a, &edges), 0);
    assert_eq!(count_edges(&graph, &1, &b, &edges), 0);
    assert_eq!(find_degree_distribution(&graph, &1, &edges), vec![2]);
}

#[test]
fn test_no_filter_allows_known_kinds() {
    let graph = create_mock_graph();
    let a = company("CompanyA", "companya.com");
    assert_eq!(count_edges(&graph, &1, &a, &None), 1);
}

#[test]
fn test_unknown_kind_not_traversed_by_default() {
    let a = company("A", "a.com");
    let b = company("B", "b.com");
    let mut graph = Graph::new();
    graph.add_connection(connection("1", &a, &b, EdgeTypes::Unknown));

    assert_eq!(count_edges(&graph, &1, &a, &None), 0);
    // but a filter that names the kind explicitly does traverse it
    assert_eq!(count_edges(&graph, &1, &a, &Some(vec![EdgeTypes::Unknown])), 1);
}

#[test]
fn test_empty_graph_empty_histogram() {
    let graph = Graph::new();
    let histogram = find_degree_distribution(&graph, &2, &None);
    assert!(histogram.is_empty());
}
