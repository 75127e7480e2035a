pub mod aggregate;
pub mod cluster;
pub mod label;
pub mod options;
pub mod order;
pub mod topology;

pub use aggregate::{topology_table_find_by, TopologyError};
pub use cluster::{
    node_names, nodes_by, only_node_running, only_pod_running, spreading_status, topology_values,
    CachedNodeApi, Node, NodeCondition, Pod,
};
pub use label::{parse_key_val, Label, LabelParseError, LabelSelector};
pub use options::{
    Args, KubeConfigOptions, NodeOptions, OutputFormat, ResourceOptions, ResourceWithNameOptions,
    SubCommand, DEFAULT_ZONE_LABEL,
};
pub use topology::{Topologies, Topology, TopologyTable, TopologyTables};
