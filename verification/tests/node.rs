use xmip_core_node::{Node, NodeId, NodeRole};

fn node(capabilities: &[&str]) -> Node {
    Node {
        node_id: NodeId::new(1),
        name: "edge-01".to_string(),
        roles: [NodeRole::Executing, NodeRole::Operational]
            .into_iter()
            .collect(),
        capabilities: capabilities.iter().map(|c| (*c).to_string()).collect(),
        trusted: true,
    }
}

#[test]
fn a_node_supports_exactly_what_it_declares() {
    let node = node(&["transport:http", "contract:json"]);
    assert!(node.supports("transport:http"));
    assert!(!node.supports("transport:mqtt"));
}

#[test]
fn roles_are_a_set_in_a_fixed_order() {
    let node = node(&[]);
    assert_eq!(
        node.roles.iter().copied().collect::<Vec<_>>(),
        vec![NodeRole::Operational, NodeRole::Executing]
    );
    assert!(NodeRole::Development > NodeRole::Executing);
}

#[test]
fn a_node_supports_a_capability_only_by_its_exact_name() {
    let node = node(&["contract:json"]);
    assert!(node.supports("contract:json"));
    assert!(!node.supports("contract:JSON"));
    assert!(!node.supports("contract:json "));
    assert!(!node.supports(""));
    assert_eq!(node.node_id.get(), 1);
}
