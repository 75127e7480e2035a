use crate::cluster::opt_view;
use crate::label::{is_label_map, label_views, labels_of, selector_of, selector_text, Label};
use vstd::prelude::*;

verus! {

/// The node label that names a node's zone, used when no topology key is given.
pub const DEFAULT_ZONE_LABEL: &'static str = "topology.kubernetes.io/zone";

/// The view of an optional string slice.
pub open spec fn opt_str_view(s: Option<&str>) -> Option<Seq<char>> {
    match s {
        Some(x) => Some(x@),
        None => None,
    }
}

fn as_opt_str(s: &Option<String>) -> (r: Option<&str>)
    ensures
        opt_str_view(r) == opt_view(*s),
{
    match s {
        Some(x) => Some(x.as_str()),
        None => None,
    }
}

/// How results are printed.
pub enum OutputFormat {
    Text,
    Yaml,
    Json,
}

/// The name of an output format, in snake case.
pub open spec fn format_name(f: OutputFormat) -> Seq<char> {
    match f {
        OutputFormat::Text => "text"@,
        OutputFormat::Yaml => "yaml"@,
        OutputFormat::Json => "json"@,
    }
}

impl OutputFormat {
    /// The format's name, in snake case.
    pub fn as_str(&self) -> (r: &'static str)
        ensures
            r@ == format_name(*self),
    {
        match self {
            OutputFormat::Text => "text",
            OutputFormat::Yaml => "yaml",
            OutputFormat::Json => "json",
        }
    }

    /// The format's name, in snake case.
    pub fn to_string(&self) -> (r: String)
        ensures
            r@ == format_name(*self),
    {
        self.as_str().to_owned()
    }
}

/// Which cluster configuration to use.
pub struct KubeConfigOptions {
    pub context: Option<String>,
    pub cluster: Option<String>,
    pub user: Option<String>,
}

/// Options of a query over pods or over all workloads.
pub struct ResourceOptions {
    pub namespace: Option<String>,
    pub topology_key: String,
    pub selector: Vec<Label>,
}

impl Default for ResourceOptions {
    fn default() -> (r: ResourceOptions)
        ensures
            r.namespace is None,
            r.topology_key@ == DEFAULT_ZONE_LABEL@,
            r.selector@.len() == 0,
    {
        ResourceOptions {
            namespace: None,
            topology_key: DEFAULT_ZONE_LABEL.to_owned(),
            selector: Vec::new(),
        }
    }
}

impl ResourceOptions {
    /// The label selector as `key=value` texts joined by commas; empty when there is none.
    pub fn selectors(&self) -> (r: String)
        ensures
            r@ == selector_text(label_views(self.selector@)),
    {
        selector_of(&self.selector)
    }

    pub fn namespace(&self) -> (r: Option<&str>)
        ensures
            opt_str_view(r) == opt_view(self.namespace),
    {
        as_opt_str(&self.namespace)
    }
}

/// Options of a query over one kind of workload, optionally by name.
pub struct ResourceWithNameOptions {
    pub namespace: Option<String>,
    pub topology_key: String,
    pub selector: Vec<Label>,
    pub name: Option<String>,
}

impl Default for ResourceWithNameOptions {
    fn default() -> (r: ResourceWithNameOptions)
        ensures
            r.namespace is None,
            r.topology_key@ == DEFAULT_ZONE_LABEL@,
            r.selector@.len() == 0,
            r.name is None,
    {
        ResourceWithNameOptions {
            namespace: None,
            topology_key: DEFAULT_ZONE_LABEL.to_owned(),
            selector: Vec::new(),
            name: None,
        }
    }
}

impl ResourceWithNameOptions {
    /// The label selector as `key=value` texts joined by commas, or none when it is empty.
    pub fn selectors(&self) -> (r: Option<String>)
        ensures
            selector_text(label_views(self.selector@)).len() == 0 ==> r is None,
            selector_text(label_views(self.selector@)).len() > 0 ==> (r matches Some(s) && s@
                == selector_text(label_views(self.selector@))),
    {
        let s = selector_of(&self.selector);
        if s.as_str().is_empty() {
            None
        } else {
            Some(s)
        }
    }

    pub fn namespace(&self) -> (r: Option<&str>)
        ensures
            opt_str_view(r) == opt_view(self.namespace),
    {
        as_opt_str(&self.namespace)
    }

    pub fn name(&self) -> (r: Option<&str>)
        ensures
            opt_str_view(r) == opt_view(self.name),
    {
        as_opt_str(&self.name)
    }
}

/// Options of a query over nodes.
pub struct NodeOptions {
    pub topology_key: String,
    pub selector: Vec<Label>,
}

impl NodeOptions {
    /// The label filter: each key once, ascending, with the value given last.
    pub fn labels(&self) -> (r: Vec<Label>)
        ensures
            is_label_map(label_views(r@), label_views(self.selector@)),
    {
        labels_of(&self.selector)
    }
}

impl Default for NodeOptions {
    fn default() -> (r: NodeOptions)
        ensures
            r.topology_key@ == DEFAULT_ZONE_LABEL@,
            r.selector@.len() == 0,
    {
        NodeOptions { topology_key: DEFAULT_ZONE_LABEL.to_owned(), selector: Vec::new() }
    }
}

/// What to report on.
pub enum SubCommand {
    Pod { options: ResourceOptions },
    Deployment { options: ResourceWithNameOptions },
    StatefulSet { options: ResourceWithNameOptions },
    DaemonSet { options: ResourceWithNameOptions },
    Job { options: ResourceWithNameOptions },
    All { options: ResourceOptions },
    Node { options: NodeOptions },
}

/// A whole command line.
pub struct Args {
    pub kube_options: KubeConfigOptions,
    pub output: OutputFormat,
    pub sub: SubCommand,
}

} // verus!
