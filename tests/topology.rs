use topology_spread::{Topologies, Topology, TopologyTable, TopologyTables};

fn strings(values: &[&str]) -> Vec<String> {
    values.iter().map(|v| v.to_string()).collect()
}

fn rows(topologies: Topologies) -> Vec<(String, u32, u32)> {
    topologies
        .into_vec()
        .into_iter()
        .map(|t| (t.key, t.count, t.skew))
        .collect()
}

fn expect(rows_got: Vec<(String, u32, u32)>, want: &[(&str, u32, u32)]) {
    let want: Vec<(String, u32, u32)> = want
        .iter()
        .map(|(k, c, s)| (k.to_string(), *c, *s))
        .collect();
    assert_eq!(rows_got, want);
}

#[test]
fn create_with_skew_calculation_ok() {
    let domains = strings(&["zone-a", "zone-b", "zone-c"]);

    let table = vec![
        (
            (vec!["zone-a", "zone-b", "zone-c"], &domains),
            ("zone-a", 1, 0, "zone-b", 1, 0, "zone-c", 1, 0),
        ),
        (
            (
                vec!["zone-a", "zone-b", "zone-c", "zone-a", "zone-a"],
                &domains,
            ),
            ("zone-a", 3, 2, "zone-b", 1, 0, "zone-c", 1, 0),
        ),
        (
            (
                vec!["zone-c", "zone-a", "zone-a", "zone-b", "zone-a", "zone-b"],
                &domains,
            ),
            ("zone-a", 3, 2, "zone-b", 2, 1, "zone-c", 1, 0),
        ),
        (
            (vec!["zone-a"], &domains),
            ("zone-a", 1, 1, "zone-b", 0, 0, "zone-c", 0, 0),
        ),
        (
            (vec!["zone-a", "zone-a", "zone-a", "zone-a"], &domains),
            ("zone-a", 4, 4, "zone-b", 0, 0, "zone-c", 0, 0),
        ),
        (
            (vec!["zone-a", "zone-b"], &domains),
            ("zone-a", 1, 1, "zone-b", 1, 1, "zone-c", 0, 0),
        ),
        (
            (Vec::new(), &domains),
            ("zone-a", 0, 0, "zone-b", 0, 0, "zone-c", 0, 0),
        ),
        (
            (Vec::new(), &domains),
            ("zone-a", 0, 0, "zone-b", 0, 0, "zone-c", 0, 0),
        ),
    ];

    for (
        (topology_values, domains),
        (e1_key, e1_count, e1_skew, e2_key, e2_count, e2_skew, e3_key, e3_count, e3_skew),
    ) in table
    {
        let topology_values = topology_values
            .into_iter()
            .map(ToString::to_string)
            .collect::<Vec<_>>();

        let topologies = Topologies::create_with_skew_calculation(topology_values, domains);
        let mut iter = topologies.into_vec().into_iter();

        let topology = iter.next().unwrap();
        assert_eq!(topology.key, e1_key.to_owned());
        assert_eq!(topology.count, e1_count);
        assert_eq!(topology.skew, e1_skew);

        let topology = iter.next().unwrap();
        assert_eq!(topology.key, e2_key.to_owned());
        assert_eq!(topology.count, e2_count);
        assert_eq!(topology.skew, e2_skew);

        let topology = iter.next().unwrap();
        assert_eq!(topology.key, e3_key.to_owned());
        assert_eq!(topology.count, e3_count);
        assert_eq!(topology.skew, e3_skew);
    }
}

#[test]
fn scenario_even_spread() {
    let t = Topologies::create_with_skew_calculation(
        strings(&["z-a", "z-b", "z-c"]),
        &strings(&["z-a", "z-b", "z-c"]),
    );
    expect(rows(t), &[("z-a", 1, 0), ("z-b", 1, 0), ("z-c", 1, 0)]);
}

#[test]
fn scenario_one_zone_heavy() {
    let t = Topologies::create_with_skew_calculation(
        strings(&["z-a", "z-b", "z-c", "z-a", "z-a"]),
        &strings(&["z-a", "z-b", "z-c"]),
    );
    expect(rows(t), &[("z-a", 3, 2), ("z-b", 1, 0), ("z-c", 1, 0)]);
}

#[test]
fn scenario_no_values() {
    let t = Topologies::create_with_skew_calculation(Vec::new(), &strings(&["z-a", "z-b", "z-c"]));
    expect(rows(t), &[("z-a", 0, 0), ("z-b", 0, 0), ("z-c", 0, 0)]);
}

#[test]
fn scenario_single_value() {
    let t = Topologies::create_with_skew_calculation(
        strings(&["z-a"]),
        &strings(&["z-a", "z-b", "z-c"]),
    );
    expect(rows(t), &[("z-a", 1, 1), ("z-b", 0, 0), ("z-c", 0, 0)]);
}

#[test]
fn no_domains_no_values_gives_no_rows() {
    let t = Topologies::create_with_skew_calculation(Vec::new(), &Vec::new());
    assert!(t.into_vec().is_empty());
}

#[test]
fn skew_is_count_minus_least_count() {
    let t = Topologies::create_with_skew_calculation(
        strings(&["b", "b", "c", "c", "c", "a", "b"]),
        &strings(&["a", "b", "c"]),
    );
    let got = rows(t);
    let least = got.iter().map(|r| r.1).min().unwrap();
    assert_eq!(least, 1);
    for (_, count, skew) in &got {
        assert!(*count >= least);
        assert_eq!(*skew, count - least);
    }
    expect(got, &[("a", 1, 0), ("b", 3, 2), ("c", 3, 2)]);
}

#[test]
fn same_input_twice_same_rows() {
    let values = strings(&["z-b", "z-a", "z-b"]);
    let domains = strings(&["z-c", "z-a", "z-b"]);
    let first = rows(Topologies::create_with_skew_calculation(values.clone(), &domains));
    let second = rows(Topologies::create_with_skew_calculation(values, &domains));
    assert_eq!(first, second);
}

#[test]
fn every_domain_appears_even_at_zero() {
    let t = Topologies::create_with_skew_calculation(
        strings(&["z-b"]),
        &strings(&["z-d", "z-b", "z-a"]),
    );
    expect(rows(t), &[("z-a", 0, 0), ("z-b", 1, 1), ("z-d", 0, 0)]);
}

#[test]
fn unknown_value_adds_a_row() {
    let t = Topologies::create_with_skew_calculation(
        strings(&["z-x", "z-a"]),
        &strings(&["z-a", "z-b"]),
    );
    expect(rows(t), &[("z-a", 1, 1), ("z-b", 0, 0), ("z-x", 1, 1)]);
}

#[test]
fn rows_ascend_whatever_the_input_order() {
    let domains_one = strings(&["zone-c", "zone-a", "zone-b"]);
    let domains_two = strings(&["zone-b", "zone-c", "zone-a", "zone-a"]);
    let one = rows(Topologies::create_with_skew_calculation(
        strings(&["zone-c", "zone-a", "zone-c"]),
        &domains_one,
    ));
    let two = rows(Topologies::create_with_skew_calculation(
        strings(&["zone-c", "zone-c", "zone-a"]),
        &domains_two,
    ));
    assert_eq!(one, two);
    let keys: Vec<&str> = one.iter().map(|r| r.0.as_str()).collect();
    assert_eq!(keys, vec!["zone-a", "zone-b", "zone-c"]);
}

#[test]
fn keys_sort_by_code_point() {
    let t = Topologies::create_with_skew_calculation(
        strings(&["b", "a-1", "a"]),
        &strings(&["B", "ä"]),
    );
    let keys: Vec<String> = rows(t).into_iter().map(|r| r.0).collect();
    assert_eq!(keys, strings(&["B", "a", "a-1", "b", "ä"]));
}

#[test]
fn topology_table_create_keeps_header() {
    let table = TopologyTable::create(
        strings(&["z-a"]),
        &strings(&["z-a", "z-b"]),
        Some("apps/v1/deployment/web".to_string()),
    );
    assert_eq!(table.header.as_deref(), Some("apps/v1/deployment/web"));
    expect(rows(table.topologies), &[("z-a", 1, 1), ("z-b", 0, 0)]);
}

#[test]
fn identical_tables_collapse() {
    let make = |header: Option<&str>| {
        TopologyTable::create(
            strings(&["z-a", "z-b", "z-a"]),
            &strings(&["z-a", "z-b"]),
            header.map(|h| h.to_string()),
        )
    };
    let mut tables = TopologyTables::new();
    tables.insert(make(Some("x")));
    tables.insert(make(Some("x")));
    assert_eq!(tables.len(), 1);
    tables.insert(make(None));
    assert_eq!(tables.len(), 2);
    let headers: Vec<Option<String>> = tables.into_vec().into_iter().map(|t| t.header).collect();
    assert_eq!(headers, vec![None, Some("x".to_string())]);
}

#[test]
fn tables_with_same_header_and_other_rows_both_stay() {
    let mut tables = TopologyTables::new();
    tables.insert(TopologyTable::create(
        strings(&["z-a"]),
        &strings(&["z-a"]),
        Some("w".to_string()),
    ));
    tables.insert(TopologyTable::create(
        strings(&["z-a", "z-a"]),
        &strings(&["z-a"]),
        Some("w".to_string()),
    ));
    assert_eq!(tables.len(), 2);
    let counts: Vec<u32> = tables
        .into_vec()
        .into_iter()
        .map(|t| t.topologies.into_vec()[0].count)
        .collect();
    assert_eq!(counts, vec![1, 2]);
}

#[test]
fn topology_new_sets_fields() {
    let t = Topology::new("z".to_string(), 4, 2);
    assert_eq!((t.key.as_str(), t.count, t.skew), ("z", 4, 2));
}
