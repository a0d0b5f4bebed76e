use company_graph::graph::Company;
use company_graph::graph::CompanyConnection;
use company_graph::graph::EdgeTypes;
use company_graph::graph::Graph;
use company_graph::graph::build_graph_from;
use company_graph::graph::match_EdgeTypes;

fn company(name: &str, domain: &str) -> Company {
    Company { name: name.to_string(), domain_name: domain.to_string() }
}

#[test]
fn test_reciprocal_connection() {
    let original_connection = CompanyConnection {
        id: "123".to_string(),
        tail: company("CompanyA", "companya.com"),
        head: company("CompanyB", "companyb.com"),
        edge: EdgeTypes::Customer,
        update_time: "2021-04-01".to_string(),
    };

    let reciprocal = original_connection.reciprocal_connection();

    assert_eq!(reciprocal.tail.name, original_connection.head.name);
    assert_eq!(reciprocal.head.name, original_connection.tail.name);
    assert_eq!(reciprocal.edge, EdgeTypes::Supplier);
    assert_eq!(reciprocal.id, "123-RECI");
}

#[allow(non_snake_case)]
#[test]
fn test_match_EdgeTypes() {
    assert_eq!(match_EdgeTypes("customer"), EdgeTypes::Customer);
    assert_eq!(match_EdgeTypes("supplier"), EdgeTypes::Supplier);
    assert_eq!(match_EdgeTypes("investment"), EdgeTypes::Investor);
    assert_eq!(match_EdgeTypes("investee"), EdgeTypes::Investee);
    assert_eq!(match_EdgeTypes("partnership"), EdgeTypes::Partner);
    assert_eq!(match_EdgeTypes("competitor"), EdgeTypes::Competitor);
    assert_eq!(match_EdgeTypes("some other value"), EdgeTypes::Unknown);
}

#[test]
fn test_match_edge_types_ignores_case() {
    assert_eq!(match_EdgeTypes("Customer"), EdgeTypes::Customer);
    assert_eq!(match_EdgeTypes("SUPPLIER"), EdgeTypes::Supplier);
    assert_eq!(match_EdgeTypes("PartnerShip"), EdgeTypes::Partner);
}

#[test]
fn test_reciprocal_of_symmetric_kinds() {
    let conn = CompanyConnection {
        id: "7".to_string(),
        tail: company("A", "a.com"),
        head: company("B", "b.com"),
        edge: EdgeTypes::Partner,
        update_time: "2021-04-01".to_string(),
    };
    assert_eq!(conn.reciprocal_connection().edge, EdgeTypes::Partner);
    let conn2 = CompanyConnection { edge: EdgeTypes::Competitor, ..conn.clone() };
    assert_eq!(conn2.reciprocal_connection().edge, EdgeTypes::Competitor);
    let conn3 = CompanyConnection { edge: EdgeTypes::Investor, ..conn };
    let back = conn3.reciprocal_connection().reciprocal_connection();
    assert_eq!(back.edge, EdgeTypes::Investor);
    assert_eq!(back.tail.name, "A");
    assert_eq!(back.head.name, "B");
}

#[test]
fn test_reciprocity_in_built_graph() {
    let mut graph = Graph::new();
    graph.add_connection(CompanyConnection {
        id: "1".to_string(),
        tail: company("A", "a.com"),
        head: company("B", "b.com"),
        edge: EdgeTypes::Customer,
        update_time: "2021-04-01".to_string(),
    });
    // every stored connection has its mirrored record in the graph
    for node in &graph.nodes {
        for conn in &node.connections {
            let found = graph.nodes.iter().any(|other| {
                other.connections.iter().any(|back| {
                    back.tail == conn.head
                        && back.head == conn.tail
                        && back.update_time == conn.update_time
                })
            });
            assert!(found, "connection {} has no reciprocal record", conn.id);
        }
    }
    // concretely: a Customer record from A to B yields a Supplier record from B to A
    let b_node = graph.nodes.iter().find(|n| n.company.name == "B").unwrap();
    assert_eq!(b_node.connections.len(), 1);
    assert_eq!(b_node.connections[0].edge, EdgeTypes::Supplier);
    assert_eq!(b_node.connections[0].head.name, "A");
    assert_eq!(b_node.connections[0].id, "1-RECI");
}

fn record(fields: &[&str]) -> Vec<String> {
    fields.iter().map(|s| s.to_string()).collect()
}

#[test]
fn test_build_graph_skips_bad_records() {
    let records = vec![
        // accepted
        record(&["1", "A", "B", "customer", "2021-04-01", "a.com", "b.com", "x"]),
        // too few fields
        record(&["2", "A", "C", "customer", "2021-04-01", "a.com"]),
        // placeholder field
        record(&["3", "A", "D", "customer", "2021-04-01", "a.com", "N/A", "x"]),
        // unrecognized kind
        record(&["4", "A", "E", "friendship", "2021-04-01", "a.com", "e.com", "x"]),
    ];
    let graph = build_graph_from(&records);
    assert_eq!(graph.nodes.len(), 2);
    let a_node = graph.nodes.iter().find(|n| n.company.name == "A").unwrap();
    assert_eq!(a_node.connections.len(), 1);
    assert_eq!(a_node.connections[0].edge, EdgeTypes::Customer);
    assert_eq!(a_node.connections[0].head.name, "B");
}

#[test]
fn test_build_graph_from_empty() {
    let records: Vec<Vec<String>> = Vec::new();
    let graph = build_graph_from(&records);
    assert_eq!(graph.nodes.len(), 0);
}
