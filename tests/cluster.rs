use topology_spread::{
    node_names, nodes_by, only_node_running, only_pod_running, spreading_status,
    topology_table_find_by, topology_values, CachedNodeApi, Label, Node, NodeCondition, Pod,
    TopologyError,
};

const ZONE: &str = "topology.kubernetes.io/zone";

fn node(name: &str, zone: Option<&str>, ready: bool) -> Node {
    let mut labels = vec![Label::from(("kubernetes.io/os", "linux"))];
    if let Some(z) = zone {
        labels.push(Label::from((ZONE, z)));
    }
    let status = if ready { "True" } else { "False" };
    Node {
        name: name.to_string(),
        labels,
        conditions: vec![
            NodeCondition {
                type_: "MemoryPressure".to_string(),
                status: "False".to_string(),
            },
            NodeCondition {
                type_: "Ready".to_string(),
                status: status.to_string(),
            },
        ],
    }
}

fn pod(name: &str, phase: Option<&str>, node_name: Option<&str>) -> Pod {
    Pod {
        name: name.to_string(),
        phase: phase.map(|p| p.to_string()),
        node_name: node_name.map(|n| n.to_string()),
    }
}

fn snapshot() -> CachedNodeApi {
    CachedNodeApi::new(vec![
        node("node-a", Some("asia-northeast1-a"), true),
        node("node-b", Some("asia-northeast1-b"), true),
        node("node-c", Some("asia-northeast1-c"), true),
        node("node-d", Some("asia-northeast1-c"), false),
        node("node-e", None, true),
    ])
}

fn rows(tables: topology_spread::TopologyTables) -> Vec<(Option<String>, Vec<(String, u32, u32)>)> {
    tables
        .into_vec()
        .into_iter()
        .map(|t| {
            (
                t.header,
                t.topologies
                    .into_vec()
                    .into_iter()
                    .map(|r| (r.key, r.count, r.skew))
                    .collect(),
            )
        })
        .collect()
}

#[test]
fn only_running_pods_are_kept() {
    let pods = vec![
        pod("p1", Some("Running"), Some("node-a")),
        pod("p2", Some("Pending"), Some("node-b")),
        pod("p3", None, Some("node-c")),
        pod("p4", Some("Running"), None),
    ];
    let names: Vec<String> = only_pod_running(pods).into_iter().map(|p| p.name).collect();
    assert_eq!(names, vec!["p1", "p4"]);
}

#[test]
fn only_ready_nodes_are_kept() {
    let mut no_status = node("node-x", Some("z"), true);
    no_status.conditions.clear();
    let nodes = vec![node("node-a", Some("z"), true), node("node-b", Some("z"), false), no_status];
    let names: Vec<String> = only_node_running(nodes).into_iter().map(|n| n.name).collect();
    assert_eq!(names, vec!["node-a"]);
}

#[test]
fn topology_values_skip_unlabelled_nodes() {
    let nodes = vec![
        node("node-a", Some("z-a"), true),
        node("node-e", None, true),
        node("node-b", Some("z-b"), true),
    ];
    assert_eq!(topology_values(ZONE, &nodes), vec!["z-a", "z-b"]);
}

#[test]
fn node_names_of_bound_pods() {
    let pods = vec![
        pod("p1", Some("Running"), Some("node-a")),
        pod("p2", Some("Running"), None),
        pod("p3", Some("Running"), Some("node-a")),
    ];
    assert_eq!(node_names(&pods), vec!["node-a", "node-a"]);
}

#[test]
fn directory_lookups() {
    let api = snapshot();
    assert_eq!(api.get("node-b").map(|n| n.name), Some("node-b".to_string()));
    assert!(api.get("node-z").is_none());
    let mut domains = api.domains(ZONE);
    domains.sort();
    assert_eq!(domains, vec!["asia-northeast1-a", "asia-northeast1-b", "asia-northeast1-c"]);
    assert!(api.domains("no-such-label").is_empty());
}

#[test]
fn directory_list_by_labels() {
    let api = snapshot();
    assert_eq!(api.list(&Vec::new()).len(), 5);
    let filter = vec![Label::from((ZONE, "asia-northeast1-c"))];
    let names: Vec<String> = api.list(&filter).into_iter().map(|n| n.name).collect();
    assert_eq!(names, vec!["node-c", "node-d"]);
    let filter = vec![
        Label::from((ZONE, "asia-northeast1-c")),
        Label::from(("kubernetes.io/os", "windows")),
    ];
    assert!(api.list(&filter).is_empty());
}

#[test]
fn nodes_by_drops_unknown_and_unready_nodes() {
    let api = snapshot();
    let pods = vec![
        pod("p1", Some("Running"), Some("node-a")),
        pod("p2", Some("Running"), Some("node-d")),
        pod("p3", Some("Running"), Some("node-gone")),
        pod("p4", Some("Running"), Some("node-a")),
    ];
    let names: Vec<String> = nodes_by(&pods, &api).into_iter().map(|n| n.name).collect();
    assert_eq!(names, vec!["node-a", "node-a"]);
}

#[test]
fn spreading_status_values_and_domains() {
    let api = snapshot();
    let nodes = vec![node("node-a", Some("asia-northeast1-a"), true), node("node-e", None, true)];
    let (values, mut domains) = spreading_status(&nodes, ZONE, &api);
    assert_eq!(values, vec!["asia-northeast1-a"]);
    domains.sort();
    assert_eq!(domains.len(), 3);
}

#[test]
fn aggregate_two_workloads_with_headers() {
    let api = snapshot();
    let workloads = vec![
        (
            "apps/v1/deployment/deploy1".to_string(),
            vec![
                pod("a1", Some("Running"), Some("node-a")),
                pod("a2", Some("Running"), Some("node-b")),
                pod("a3", Some("Running"), Some("node-c")),
            ],
        ),
        (
            "apps/v1/deployment/deploy2".to_string(),
            vec![
                pod("b1", Some("Running"), Some("node-a")),
                pod("b2", Some("Running"), Some("node-a")),
                pod("b3", Some("Failed"), Some("node-b")),
            ],
        ),
    ];
    let tables = match topology_table_find_by(&workloads, &api, ZONE, true) {
        Ok(t) => t,
        Err(_) => panic!("expected tables"),
    };
    let got = rows(tables);
    assert_eq!(got.len(), 2);
    assert_eq!(got[0].0.as_deref(), Some("apps/v1/deployment/deploy1"));
    assert_eq!(
        got[0].1,
        vec![
            ("asia-northeast1-a".to_string(), 1, 0),
            ("asia-northeast1-b".to_string(), 1, 0),
            ("asia-northeast1-c".to_string(), 1, 0),
        ]
    );
    assert_eq!(got[1].0.as_deref(), Some("apps/v1/deployment/deploy2"));
    assert_eq!(
        got[1].1,
        vec![
            ("asia-northeast1-a".to_string(), 2, 2),
            ("asia-northeast1-b".to_string(), 0, 0),
            ("asia-northeast1-c".to_string(), 0, 0),
        ]
    );
}

#[test]
fn aggregate_without_header_dedups_equal_tables() {
    let api = snapshot();
    let pods = vec![pod("a1", Some("Running"), Some("node-a"))];
    let workloads = vec![("one".to_string(), pods), ("two".to_string(), vec![pod("x", Some("Running"), Some("node-a"))])];
    let tables = match topology_table_find_by(&workloads, &api, ZONE, false) {
        Ok(t) => t,
        Err(_) => panic!("expected tables"),
    };
    let got = rows(tables);
    assert_eq!(got.len(), 1);
    assert_eq!(got[0].0, None);
}

#[test]
fn aggregate_fails_when_a_workload_has_no_running_bound_pod() {
    let api = snapshot();
    let workloads = vec![
        ("ok".to_string(), vec![pod("a1", Some("Running"), Some("node-a"))]),
        (
            "idle".to_string(),
            vec![pod("b1", Some("Pending"), Some("node-a")), pod("b2", Some("Running"), None)],
        ),
    ];
    let r = topology_table_find_by(&workloads, &api, ZONE, true);
    assert!(matches!(r, Err(TopologyError::NoObjectsFound)));
}

#[test]
fn aggregate_fails_on_empty_pod_list() {
    let api = snapshot();
    let workloads = vec![("empty".to_string(), Vec::new())];
    match topology_table_find_by(&workloads, &api, ZONE, false) {
        Err(e) => assert_eq!(e.message(), "No found objects"),
        Ok(_) => panic!("expected an error"),
    }
}

#[test]
fn aggregate_of_no_workloads_is_empty() {
    let api = snapshot();
    let r = topology_table_find_by(&Vec::new(), &api, ZONE, true);
    match r {
        Ok(t) => assert_eq!(t.len(), 0),
        Err(_) => panic!("expected empty tables"),
    }
}
