use topology_spread::{
    parse_key_val, Label, LabelParseError, LabelSelector, NodeOptions, OutputFormat,
    ResourceOptions, ResourceWithNameOptions, DEFAULT_ZONE_LABEL,
};

fn pairs(labels: Vec<Label>) -> Vec<(String, String)> {
    labels.into_iter().map(|l| (l.0, l.1)).collect()
}

#[test]
fn parse_key_val_splits_at_first_equals() {
    let l = parse_key_val("app=web=v2").ok().unwrap();
    assert_eq!((l.0.as_str(), l.1.as_str()), ("app", "web=v2"));
    let l = parse_key_val("=x").ok().unwrap();
    assert_eq!((l.0.as_str(), l.1.as_str()), ("", "x"));
    let l = parse_key_val("k=").ok().unwrap();
    assert_eq!((l.0.as_str(), l.1.as_str()), ("k", ""));
}

#[test]
fn parse_key_val_without_equals_fails() {
    let r = parse_key_val("app");
    assert!(matches!(r, Err(LabelParseError::MissingSeparator)));
    match parse_key_val("") {
        Err(e) => assert_eq!(e.message(), "Not found `=` in key value pair(KEY=VALUE)"),
        Ok(_) => panic!("expected an error"),
    }
}

#[test]
fn label_text_and_selector() {
    assert_eq!(Label::from(("app", "web")).to_string(), "app=web");
    let labels = vec![Label::from(("app", "web")), Label::from(("tier", "front"))];
    assert_eq!(labels.selector(), "app=web,tier=front");
    assert_eq!(Vec::<Label>::new().selector(), "");
}

#[test]
fn labels_map_sorted_last_wins() {
    let labels = vec![
        Label::from(("tier", "front")),
        Label::from(("app", "web")),
        Label::from(("tier", "back")),
    ];
    assert_eq!(
        pairs(labels.labels()),
        vec![
            ("app".to_string(), "web".to_string()),
            ("tier".to_string(), "back".to_string())
        ]
    );
}

#[test]
fn resource_options_accessors() {
    let mut o = ResourceOptions::default();
    assert_eq!(o.topology_key, DEFAULT_ZONE_LABEL);
    assert_eq!(o.namespace(), None);
    assert_eq!(o.selectors(), "");
    o.namespace = Some("kube-system".to_string());
    o.selector = vec![Label::from(("app", "a")), Label::from(("group", "g"))];
    assert_eq!(o.namespace(), Some("kube-system"));
    assert_eq!(o.selectors(), "app=a,group=g");
}

#[test]
fn resource_with_name_options_accessors() {
    let mut o = ResourceWithNameOptions::default();
    assert_eq!(o.selectors(), None);
    assert_eq!(o.name(), None);
    o.selector = vec![Label::from(("app", "a"))];
    o.name = Some("deploy1".to_string());
    o.namespace = Some("default".to_string());
    assert_eq!(o.selectors(), Some("app=a".to_string()));
    assert_eq!(o.name(), Some("deploy1"));
    assert_eq!(o.namespace(), Some("default"));
}

#[test]
fn node_options_labels() {
    let mut o = NodeOptions::default();
    assert_eq!(o.topology_key, "topology.kubernetes.io/zone");
    assert!(o.labels().is_empty());
    o.selector = vec![Label::from(("kubernetes.io/os", "linux"))];
    assert_eq!(
        pairs(o.labels()),
        vec![("kubernetes.io/os".to_string(), "linux".to_string())]
    );
}

#[test]
fn output_format_names() {
    assert_eq!(OutputFormat::Text.as_str(), "text");
    assert_eq!(OutputFormat::Yaml.to_string(), "yaml");
    assert_eq!(OutputFormat::Json.as_str(), "json");
}
