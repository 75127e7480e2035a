use crate::cluster::{
    domain_set, is_pod_running, nodes_by, pod_views, resolved_nodes, running_pods, spreading_status,
    topology_values_of, CachedNodeApi, NodeView, Pod, PodView,
};
use crate::topology::{
    inserts_table, is_skew_table, lemma_skew_table_is_unique, views, TopologyTable, TopologyTables,
};
use vstd::prelude::*;

verus! {

/// Why an aggregation gives no result.
pub enum TopologyError {
    /// A workload resolved to no running instance on a ready, known node.
    NoObjectsFound,
}

impl TopologyError {
    /// A message for people.
    pub fn message(&self) -> (r: &'static str)
        ensures
            r@ == "No found objects"@,
    {
        match self {
            TopologyError::NoObjectsFound => "No found objects",
        }
    }
}

/// The ready nodes that a workload's running pods are bound to.
pub open spec fn workload_nodes(pods: Seq<PodView>, nodes: Seq<NodeView>) -> Seq<NodeView> {
    resolved_nodes(pods.filter(|p: PodView| is_pod_running(p)), nodes)
}

/// The topology values observed for a workload.
pub open spec fn workload_values(pods: Seq<PodView>, nodes: Seq<NodeView>, key: Seq<char>) -> Seq<
    Seq<char>,
> {
    topology_values_of(workload_nodes(pods, nodes), key)
}

/// The header of a workload's table: its name, or none.
pub open spec fn header_for(name: Seq<char>, use_header: bool) -> Option<Seq<char>> {
    if use_header {
        Some(name)
    } else {
        None
    }
}

/// The result table of one workload.
pub open spec fn workload_table(
    name: Seq<char>,
    pods: Seq<PodView>,
    nodes: Seq<NodeView>,
    key: Seq<char>,
    use_header: bool,
) -> (Option<Seq<char>>, Seq<(Seq<char>, u32, u32)>) {
    (
        header_for(name, use_header),
        choose|rows: Seq<(Seq<char>, u32, u32)>|
            is_skew_table(rows, workload_values(pods, nodes, key), domain_set(nodes, key)),
    )
}

/// A copy of an optional name, present only when headers are asked for.
fn header_of(name: &String, use_header: bool) -> (r: Option<String>)
    ensures
        crate::topology::header_view(r) == header_for(name@, use_header),
{
    if use_header {
        Some(name.clone())
    } else {
        None
    }
}

impl TopologyTables {
    /// Resolves one workload's pods to ready nodes, computes its table and adds it;
    /// fails, leaving the tables as they were, when no node is left.
    pub fn add_workload(
        &mut self,
        name: &String,
        pods: &Vec<Pod>,
        node_api: &CachedNodeApi,
        topology_key: &str,
        use_header: bool,
    ) -> (r: Result<(), TopologyError>)
        requires
            old(self).wf(),
            pods@.len() <= u32::MAX,
        ensures
            final(self).wf(),
            r is Err <==> workload_nodes(pod_views(pods@), node_api@).len() == 0,
            r is Err ==> final(self)@ == old(self)@,
            r is Ok ==> inserts_table(
                old(self)@,
                workload_table(name@, pod_views(pods@), node_api@, topology_key@, use_header),
                final(self)@,
            ),
    {
        let running = running_pods(pods.as_slice());
        let nodes = nodes_by(running.as_slice(), node_api);
        if nodes.len() == 0 {
            return Err(TopologyError::NoObjectsFound);
        }
        let (values, domains) = spreading_status(nodes.as_slice(), topology_key, node_api);
        let ghost vals = workload_values(pod_views(pods@), node_api@, topology_key@);
        let ghost dset = domain_set(node_api@, topology_key@);
        assert(views(values@) == vals);
        let table = TopologyTable::create(values, &domains, header_of(name, use_header));
        proof {
            let rows = table.topologies@;
            let chosen = choose|rows: Seq<(Seq<char>, u32, u32)>| is_skew_table(rows, vals, dset);
            assert(is_skew_table(rows, vals, dset));
            lemma_skew_table_is_unique(rows, chosen, vals, dset);
            assert(table@ == workload_table(
                name@,
                pod_views(pods@),
                node_api@,
                topology_key@,
                use_header,
            ));
        }
        self.insert(table);
        Ok(())
    }
}

/// The tables of the workloads, one per workload.
pub open spec fn workload_tables(
    workloads: Seq<(String, Vec<Pod>)>,
    nodes: Seq<NodeView>,
    key: Seq<char>,
    use_header: bool,
) -> Set<(Option<Seq<char>>, Seq<(Seq<char>, u32, u32)>)> {
    Set::new(
        |t: (Option<Seq<char>>, Seq<(Seq<char>, u32, u32)>)|
            exists|i: int|
                0 <= i < workloads.len() && t == workload_table(
                    (#[trigger] workloads[i]).0@,
                    pod_views(workloads[i].1@),
                    nodes,
                    key,
                    use_header,
                ),
    )
}

/// Builds the result set of named workloads, each given with the pods that its
/// selector matched, against one node snapshot. Fails as a whole when any
/// workload resolves to no ready node.
pub fn topology_table_find_by(
    workloads: &Vec<(String, Vec<Pod>)>,
    node_api: &CachedNodeApi,
    topology_key: &str,
    use_header: bool,
) -> (r: Result<TopologyTables, TopologyError>)
    requires
        forall|i: int| 0 <= i < workloads@.len() ==> (#[trigger] workloads@[i]).1@.len() <= u32::MAX,
    ensures
        r is Err <==> exists|i: int|
            0 <= i < workloads@.len() && workload_nodes(
                pod_views((#[trigger] workloads@[i]).1@),
                node_api@,
            ).len() == 0,
        r matches Ok(t) ==> t.wf() && t@.to_set() == workload_tables(
            workloads@,
            node_api@,
            topology_key@,
            use_header,
        ),
{
    let mut tables = TopologyTables::new();
    let mut i: usize = 0;
    while i < workloads.len()
        invariant
            i <= workloads@.len(),
            forall|j: int| 0 <= j < workloads@.len() ==> (#[trigger] workloads@[j]).1@.len() <= u32::MAX,
            forall|j: int|
                0 <= j < i ==> workload_nodes(pod_views((#[trigger] workloads@[j]).1@), node_api@).len()
                    > 0,
            tables.wf(),
            tables@.to_set() == workload_tables(
                workloads@.take(i as int),
                node_api@,
                topology_key@,
                use_header,
            ),
        decreases workloads@.len() - i,
    {
        let ghost before = tables@;
        let entry = &workloads[i];
        match tables.add_workload(&entry.0, &entry.1, node_api, topology_key, use_header) {
            Ok(()) => {},
            Err(e) => {
                return Err(e);
            },
        }
        proof {
            let t = workload_table(
                workloads@[i as int].0@,
                pod_views(workloads@[i as int].1@),
                node_api@,
                topology_key@,
                use_header,
            );
            let prefix = workloads@.take(i as int);
            let next = workloads@.take(i + 1);
            assert(tables@.to_set() =~= before.to_set().insert(t)) by {
                if before.contains(t) {
                    assert(before.to_set().contains(t));
                }
            }
            assert(workload_tables(next, node_api@, topology_key@, use_header) =~= workload_tables(
                prefix,
                node_api@,
                topology_key@,
                use_header,
            ).insert(t)) by {
                assert forall|x| #[trigger]
                    workload_tables(next, node_api@, topology_key@, use_header).contains(
                        x,
                    ) implies workload_tables(prefix, node_api@, topology_key@, use_header).insert(
                    t,
                ).contains(x) by {
                    let j = choose|j: int|
                        0 <= j < next.len() && x == workload_table(
                            (#[trigger] next[j]).0@,
                            pod_views(next[j].1@),
                            node_api@,
                            topology_key@,
                            use_header,
                        );
                    if j < i {
                        assert(prefix[j] == next[j]);
                    }
                }
                assert forall|x| #[trigger]
                    workload_tables(prefix, node_api@, topology_key@, use_header).insert(
                        t,
                    ).contains(x) implies workload_tables(
                    next,
                    node_api@,
                    topology_key@,
                    use_header,
                ).contains(x) by {
                    if x == t {
                        assert(next[i as int] == workloads@[i as int]);
                    } else {
                        let j = choose|j: int|
                            0 <= j < prefix.len() && x == workload_table(
                                (#[trigger] prefix[j]).0@,
                                pod_views(prefix[j].1@),
                                node_api@,
                                topology_key@,
                                use_header,
                            );
                        assert(prefix[j] == next[j]);
                    }
                }
            }
        }
        i = i + 1;
    }
    assert(workloads@.take(i as int) =~= workloads@);
    Ok(tables)
}

/// A workload none of whose pods is both running and bound to a node resolves
/// to no node, so the aggregation fails rather than giving an empty result.
pub proof fn lemma_no_running_bound_pod_resolves_nothing(pods: Seq<PodView>, nodes: Seq<NodeView>)
    requires
        forall|i: int| 0 <= i < pods.len() ==> !is_pod_running(#[trigger] pods[i]) || pods[i].2 is None,
    ensures
        workload_nodes(pods, nodes).len() == 0,
    decreases pods.len(),
{
    reveal(Seq::filter);
    let running = pods.filter(|p: PodView| is_pod_running(p));
    assert forall|i: int| 0 <= i < running.len() implies (#[trigger] running[i]).2 is None by {
        pods.lemma_filter_contains_rev(|p: PodView| is_pod_running(p), running[i]);
        assert(running.contains(running[i]));
        pods.lemma_filter_pred(|p: PodView| is_pod_running(p), i);
        let j = choose|j: int| 0 <= j < pods.len() && pods[j] == running[i];
    }
    lemma_unbound_pods_bind_nothing(running, nodes);
}

/// Pods bound to no node give no node.
proof fn lemma_unbound_pods_bind_nothing(pods: Seq<PodView>, nodes: Seq<NodeView>)
    requires
        forall|i: int| 0 <= i < pods.len() ==> (#[trigger] pods[i]).2 is None,
    ensures
        resolved_nodes(pods, nodes).len() == 0,
    decreases pods.len(),
{
    reveal(Seq::filter);
    if pods.len() > 0 {
        let init = pods.drop_last();
        assert forall|i: int| 0 <= i < init.len() implies (#[trigger] init[i]).2 is None by {
            assert(init[i] == pods[i]);
        }
        lemma_unbound_pods_bind_nothing(init, nodes);
        assert(pods.last().2 is None);
    }
}

} // verus!
