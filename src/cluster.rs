use crate::label::{duplicate_labels, find_label_value, label_value, label_views, Label};
use crate::order::compare_keys;
use crate::topology::views;
use vstd::prelude::*;

verus! {

/// What a node is to the logic: its name, its labels, and its status conditions
/// as (type, status).
pub type NodeView = (Seq<char>, Seq<(Seq<char>, Seq<char>)>, Seq<(Seq<char>, Seq<char>)>);

/// What a pod is to the logic: its name, its phase, and the node it is bound to.
pub type PodView = (Seq<char>, Option<Seq<char>>, Option<Seq<char>>);

/// One status condition of a node.
pub struct NodeCondition {
    pub type_: String,
    pub status: String,
}

impl View for NodeCondition {
    type V = (Seq<char>, Seq<char>);

    open spec fn view(&self) -> (Seq<char>, Seq<char>) {
        (self.type_@, self.status@)
    }
}

/// A cluster node, as far as spreading is concerned.
pub struct Node {
    pub name: String,
    pub labels: Vec<Label>,
    pub conditions: Vec<NodeCondition>,
}

impl View for Node {
    type V = NodeView;

    open spec fn view(&self) -> NodeView {
        (self.name@, label_views(self.labels@), self.conditions@.map_values(|c: NodeCondition| c@))
    }
}

/// A workload instance, as far as spreading is concerned.
pub struct Pod {
    pub name: String,
    pub phase: Option<String>,
    pub node_name: Option<String>,
}

/// The view of an optional string.
pub open spec fn opt_view(s: Option<String>) -> Option<Seq<char>> {
    match s {
        Some(x) => Some(x@),
        None => None,
    }
}

impl View for Pod {
    type V = PodView;

    open spec fn view(&self) -> PodView {
        (self.name@, opt_view(self.phase), opt_view(self.node_name))
    }
}

pub open spec fn node_views(s: Seq<Node>) -> Seq<NodeView> {
    s.map_values(|n: Node| n@)
}

pub open spec fn pod_views(s: Seq<Pod>) -> Seq<PodView> {
    s.map_values(|p: Pod| p@)
}

/// A pod takes part only in the running phase.
pub open spec fn is_pod_running(p: PodView) -> bool {
    p.1 == Some("Running"@)
}

/// A node is ready when one of its conditions has type `Ready` and status `True`.
pub open spec fn is_node_ready(n: NodeView) -> bool {
    exists|i: int| 0 <= i < n.2.len() && #[trigger] n.2[i] == ("Ready"@, "True"@)
}

/// The first node of the snapshot with the given name.
pub open spec fn find_node(nodes: Seq<NodeView>, name: Seq<char>) -> Option<NodeView>
    decreases nodes.len(),
{
    if nodes.len() == 0 {
        None
    } else if nodes[0].0 == name {
        Some(nodes[0])
    } else {
        find_node(nodes.drop_first(), name)
    }
}

/// The node each pod is bound to, looked up in the snapshot; pods that are
/// unbound or bound to an unknown node give nothing.
pub open spec fn bound_nodes(pods: Seq<PodView>, nodes: Seq<NodeView>) -> Seq<NodeView> {
    pods.filter_map(
        |p: PodView|
            match p.2 {
                Some(n) => find_node(nodes, n),
                None => None,
            },
    )
}

/// The ready nodes that the pods are bound to, one per pod.
pub open spec fn resolved_nodes(pods: Seq<PodView>, nodes: Seq<NodeView>) -> Seq<NodeView> {
    bound_nodes(pods, nodes).filter(|n: NodeView| is_node_ready(n))
}

/// The topology value of each node that carries the topology label.
pub open spec fn topology_values_of(nodes: Seq<NodeView>, key: Seq<char>) -> Seq<Seq<char>> {
    nodes.filter_map(|n: NodeView| label_value(n.1, key))
}

/// The distinct values of the topology label over the nodes.
pub open spec fn domain_set(nodes: Seq<NodeView>, key: Seq<char>) -> Set<Seq<char>> {
    Set::new(
        |v: Seq<char>| exists|i: int| 0 <= i < nodes.len() && label_value(#[trigger] nodes[i].1, key) == Some(v),
    )
}

/// The node carries every label of the filter.
pub open spec fn has_labels(n: NodeView, filter: Seq<(Seq<char>, Seq<char>)>) -> bool {
    forall|i: int| 0 <= i < filter.len() ==> n.1.contains(#[trigger] filter[i])
}

fn duplicate_string_opt(s: &Option<String>) -> (r: Option<String>)
    ensures
        opt_view(r) == opt_view(*s),
{
    match s {
        Some(x) => Some(x.clone()),
        None => None,
    }
}

impl NodeCondition {
    /// A copy of this condition.
    pub fn duplicate(&self) -> (r: NodeCondition)
        ensures
            r@ == self@,
    {
        NodeCondition { type_: self.type_.clone(), status: self.status.clone() }
    }
}

impl Pod {
    /// A copy of this pod.
    pub fn duplicate(&self) -> (r: Pod)
        ensures
            r@ == self@,
    {
        Pod {
            name: self.name.clone(),
            phase: duplicate_string_opt(&self.phase),
            node_name: duplicate_string_opt(&self.node_name),
        }
    }

    /// Whether the pod is in the running phase.
    pub fn is_running(&self) -> (r: bool)
        ensures
            r == is_pod_running(self@),
    {
        match &self.phase {
            Some(p) => compare_keys(p.as_str(), "Running") == 0,
            None => false,
        }
    }
}

impl Node {
    /// A copy of this node.
    pub fn duplicate(&self) -> (r: Node)
        ensures
            r@ == self@,
    {
        let mut conditions: Vec<NodeCondition> = Vec::new();
        let mut i: usize = 0;
        while i < self.conditions.len()
            invariant
                i <= self.conditions@.len(),
                conditions@.map_values(|c: NodeCondition| c@) == self.conditions@.take(
                    i as int,
                ).map_values(|c: NodeCondition| c@),
            decreases self.conditions@.len() - i,
        {
            let ghost prev = conditions@;
            conditions.push(self.conditions[i].duplicate());
            assert(self.conditions@.take(i + 1) =~= self.conditions@.take(i as int).push(
                self.conditions@[i as int],
            ));
            assert(conditions@.map_values(|c: NodeCondition| c@) =~= prev.map_values(
                |c: NodeCondition| c@,
            ).push(self.conditions@[i as int]@));
            assert(self.conditions@.take(i + 1).map_values(|c: NodeCondition| c@)
                =~= self.conditions@.take(i as int).map_values(|c: NodeCondition| c@).push(
                self.conditions@[i as int]@,
            ));
            i = i + 1;
        }
        assert(self.conditions@.take(i as int) =~= self.conditions@);
        Node { name: self.name.clone(), labels: duplicate_labels(&self.labels), conditions }
    }

    /// Whether one of the node's conditions has type `Ready` and status `True`.
    pub fn is_ready(&self) -> (r: bool)
        ensures
            r == is_node_ready(self@),
    {
        let ghost v = self@;
        let mut i: usize = 0;
        while i < self.conditions.len()
            invariant
                v == self@,
                i <= self.conditions@.len(),
                forall|j: int| 0 <= j < i ==> v.2[j] != ("Ready"@, "True"@),
            decreases self.conditions@.len() - i,
        {
            let c = &self.conditions[i];
            assert(v.2[i as int] == c@);
            if compare_keys(c.type_.as_str(), "Ready") == 0 && compare_keys(c.status.as_str(), "True")
                == 0 {
                return true;
            }
            i = i + 1;
        }
        false
    }

    /// The value of the node's topology label, if it carries one.
    pub fn topology_value(&self, topology_key: &str) -> (r: Option<String>)
        ensures
            opt_view(r) == label_value(self@.1, topology_key@),
    {
        find_label_value(&self.labels, topology_key)
    }

    /// Whether the node carries every label of the filter.
    pub fn has_labels(&self, filter: &Vec<Label>) -> (r: bool)
        ensures
            r == has_labels(self@, label_views(filter@)),
    {
        let ghost f = label_views(filter@);
        let ghost own = self@.1;
        let mut i: usize = 0;
        while i < filter.len()
            invariant
                i <= filter@.len(),
                f == label_views(filter@),
                own == self@.1,
                forall|j: int| 0 <= j < i ==> own.contains(#[trigger] f[j]),
            decreases filter@.len() - i,
        {
            let want = &filter[i];
            assert(f[i as int] == want@);
            let mut found = false;
            let mut j: usize = 0;
            while j < self.labels.len()
                invariant
                    j <= self.labels@.len(),
                    own == label_views(self.labels@),
                    found ==> own.contains(want@),
                    !found ==> forall|k: int| 0 <= k < j ==> own[k] != want@,
                decreases self.labels@.len() - j,
            {
                let l = &self.labels[j];
                assert(own[j as int] == l@);
                if compare_keys(l.0.as_str(), want.0.as_str()) == 0 && compare_keys(
                    l.1.as_str(),
                    want.1.as_str(),
                ) == 0 {
                    found = true;
                }
                j = j + 1;
            }
            if !found {
                assert(!own.contains(want@));
                return false;
            }
            i = i + 1;
        }
        true
    }
}

/// The running pods, in order.
pub fn running_pods(pods: &[Pod]) -> (r: Vec<Pod>)
    ensures
        pod_views(r@) == pod_views(pods@).filter(|p: PodView| is_pod_running(p)),
        r@.len() <= pods@.len(),
{
    let ghost all = pod_views(pods@);
    let mut out: Vec<Pod> = Vec::new();
    let mut i: usize = 0;
    while i < pods.len()
        invariant
            i <= pods@.len(),
            all == pod_views(pods@),
            out@.len() <= i,
            pod_views(out@) == all.take(i as int).filter(|p: PodView| is_pod_running(p)),
        decreases pods@.len() - i,
    {
        let ghost prev = out@;
        assert(all.take(i + 1).drop_last() =~= all.take(i as int));
        assert(all.take(i + 1).last() == pods@[i as int]@);
        proof {
            reveal(Seq::filter);
        }
        if pods[i].is_running() {
            out.push(pods[i].duplicate());
            assert(pod_views(out@) =~= pod_views(prev).push(pods@[i as int]@));
        }
        i = i + 1;
    }
    assert(all.take(i as int) =~= all);
    out
}

/// Keeps the pods in the running phase; pods without a phase or in another phase are dropped.
pub fn only_pod_running(pods: Vec<Pod>) -> (r: Vec<Pod>)
    ensures
        pod_views(r@) == pod_views(pods@).filter(|p: PodView| is_pod_running(p)),
{
    running_pods(pods.as_slice())
}

/// The ready nodes, in order.
fn ready_nodes(nodes: &[Node]) -> (r: Vec<Node>)
    ensures
        node_views(r@) == node_views(nodes@).filter(|n: NodeView| is_node_ready(n)),
        r@.len() <= nodes@.len(),
{
    let ghost all = node_views(nodes@);
    let mut out: Vec<Node> = Vec::new();
    let mut i: usize = 0;
    while i < nodes.len()
        invariant
            i <= nodes@.len(),
            all == node_views(nodes@),
            out@.len() <= i,
            node_views(out@) == all.take(i as int).filter(|n: NodeView| is_node_ready(n)),
        decreases nodes@.len() - i,
    {
        let ghost prev = out@;
        assert(all.take(i + 1).drop_last() =~= all.take(i as int));
        assert(all.take(i + 1).last() == nodes@[i as int]@);
        proof {
            reveal(Seq::filter);
        }
        if nodes[i].is_ready() {
            out.push(nodes[i].duplicate());
            assert(node_views(out@) =~= node_views(prev).push(nodes@[i as int]@));
        }
        i = i + 1;
    }
    assert(all.take(i as int) =~= all);
    out
}

/// Keeps the nodes that have a `Ready` condition with status `True`.
pub fn only_node_running(nodes: Vec<Node>) -> (r: Vec<Node>)
    ensures
        node_views(r@) == node_views(nodes@).filter(|n: NodeView| is_node_ready(n)),
{
    ready_nodes(nodes.as_slice())
}

/// The topology value of each node that carries the topology label, in order.
pub fn topology_values(topology_key: &str, nodes: &[Node]) -> (r: Vec<String>)
    ensures
        views(r@) == topology_values_of(node_views(nodes@), topology_key@),
        r@.len() <= nodes@.len(),
{
    let ghost all = node_views(nodes@);
    let mut out: Vec<String> = Vec::new();
    let mut i: usize = 0;
    while i < nodes.len()
        invariant
            i <= nodes@.len(),
            all == node_views(nodes@),
            out@.len() <= i,
            views(out@) == topology_values_of(all.take(i as int), topology_key@),
        decreases nodes@.len() - i,
    {
        let ghost prev = out@;
        assert(all.take(i + 1).drop_last() =~= all.take(i as int));
        assert(all.take(i + 1).last() == nodes@[i as int]@);
        match nodes[i].topology_value(topology_key) {
            Some(v) => {
                out.push(v);
                assert(views(out@) =~= views(prev) + seq![out@[out@.len() - 1]@]);
            },
            None => {},
        }
        i = i + 1;
    }
    assert(all.take(i as int) =~= all);
    out
}

/// The name of the node each bound pod runs on, in order.
pub fn node_names(pods: &[Pod]) -> (r: Vec<&str>)
    ensures
        r@.map_values(|s: &str| s@) == pod_views(pods@).filter_map(|p: PodView| p.2),
{
    let ghost all = pod_views(pods@);
    let mut out: Vec<&str> = Vec::new();
    let mut i: usize = 0;
    while i < pods.len()
        invariant
            i <= pods@.len(),
            all == pod_views(pods@),
            out@.map_values(|s: &str| s@) == all.take(i as int).filter_map(|p: PodView| p.2),
        decreases pods@.len() - i,
    {
        let ghost prev = out@;
        assert(all.take(i + 1).drop_last() =~= all.take(i as int));
        assert(all.take(i + 1).last() == pods@[i as int]@);
        match &pods[i].node_name {
            Some(n) => {
                out.push(n.as_str());
                assert(out@.map_values(|s: &str| s@) =~= prev.map_values(|s: &str| s@) + seq![
                    n@,
                ]);
            },
            None => {},
        }
        i = i + 1;
    }
    assert(all.take(i as int) =~= all);
    out
}

/// A snapshot of the cluster's nodes, taken once and read from then on.
pub struct CachedNodeApi {
    cached: Vec<Node>,
}

impl View for CachedNodeApi {
    type V = Seq<NodeView>;

    closed spec fn view(&self) -> Seq<NodeView> {
        node_views(self.cached@)
    }
}

impl CachedNodeApi {
    /// The snapshot of a node listing.
    pub fn new(nodes: Vec<Node>) -> (r: CachedNodeApi)
        ensures
            r@ == node_views(nodes@),
    {
        CachedNodeApi { cached: nodes }
    }

    /// The distinct values of the topology label over the snapshot, each once;
    /// nodes without the label add nothing.
    pub fn domains(&self, topology_key: &str) -> (r: Vec<String>)
        ensures
            views(r@).to_set() == domain_set(self@, topology_key@),
            views(r@).no_duplicates(),
    {
        let ghost all = self@;
        let mut out: Vec<String> = Vec::new();
        let mut i: usize = 0;
        while i < self.cached.len()
            invariant
                i <= self.cached@.len(),
                all == node_views(self.cached@),
                views(out@).no_duplicates(),
                views(out@).to_set() == domain_set(all.take(i as int), topology_key@),
            decreases self.cached@.len() - i,
        {
            let ghost prev = out@;
            assert(all[i as int] == self.cached@[i as int]@);
            match self.cached[i].topology_value(topology_key) {
                Some(v) => {
                    let mut seen = false;
                    let mut j: usize = 0;
                    while j < out.len()
                        invariant
                            j <= out@.len(),
                            out@ == prev,
                            seen ==> views(prev).contains(v@),
                            !seen ==> forall|k: int| 0 <= k < j ==> views(prev)[k] != v@,
                        decreases out@.len() - j,
                    {
                        assert(views(prev)[j as int] == out@[j as int]@);
                        if compare_keys(out[j].as_str(), v.as_str()) == 0 {
                            seen = true;
                        }
                        j = j + 1;
                    }
                    if !seen {
                        out.push(v);
                        assert(views(out@) =~= views(prev).push(out@[out@.len() - 1]@));
                    }
                    assert(views(out@).to_set() =~= domain_set(all.take(i + 1), topology_key@)) by {
                        assert forall|x| domain_set(all.take(i + 1), topology_key@).contains(x)
                            implies views(out@).to_set().contains(x) by {
                            let k = choose|k: int|
                                0 <= k < i + 1 && label_value(
                                    #[trigger] all.take(i + 1)[k].1,
                                    topology_key@,
                                ) == Some(x);
                            if k < i {
                                assert(all.take(i as int)[k] == all.take(i + 1)[k]);
                                assert(domain_set(all.take(i as int), topology_key@).contains(x));
                                assert(views(prev).to_set().contains(x));
                                let m = choose|m: int| 0 <= m < views(prev).len() && views(prev)[m] == x;
                                assert(views(out@)[m] == x);
                            } else if !seen {
                                assert(views(out@)[out@.len() - 1] == x);
                            }
                        }
                        assert forall|x| views(out@).to_set().contains(x) implies domain_set(
                            all.take(i + 1),
                            topology_key@,
                        ).contains(x) by {
                            let m = choose|m: int| 0 <= m < views(out@).len() && views(out@)[m] == x;
                            if m < prev.len() {
                                assert(views(prev)[m] == x);
                                assert(views(prev).to_set().contains(x));
                                let k = choose|k: int|
                                    0 <= k < i && label_value(
                                        #[trigger] all.take(i as int)[k].1,
                                        topology_key@,
                                    ) == Some(x);
                                assert(all.take(i + 1)[k] == all.take(i as int)[k]);
                            } else {
                                assert(all.take(i + 1)[i as int] == all[i as int]);
                            }
                        }
                    }
                },
                None => {
                    assert(domain_set(all.take(i + 1), topology_key@) =~= domain_set(
                        all.take(i as int),
                        topology_key@,
                    )) by {
                        assert forall|x| domain_set(all.take(i + 1), topology_key@).contains(x)
                            implies domain_set(all.take(i as int), topology_key@).contains(x) by {
                            let k = choose|k: int|
                                0 <= k < i + 1 && label_value(
                                    #[trigger] all.take(i + 1)[k].1,
                                    topology_key@,
                                ) == Some(x);
                            assert(all.take(i as int)[k] == all.take(i + 1)[k]);
                        }
                        assert forall|x| domain_set(all.take(i as int), topology_key@).contains(x)
                            implies domain_set(all.take(i + 1), topology_key@).contains(x) by {
                            let k = choose|k: int|
                                0 <= k < i && label_value(
                                    #[trigger] all.take(i as int)[k].1,
                                    topology_key@,
                                ) == Some(x);
                            assert(all.take(i as int)[k] == all.take(i + 1)[k]);
                        }
                    }
                },
            }
            i = i + 1;
        }
        assert(all.take(i as int) =~= all);
        out
    }

    /// The first node of the snapshot with this name; never asks the cluster.
    pub fn get(&self, node_name: &str) -> (r: Option<Node>)
        ensures
            match r {
                Some(n) => find_node(self@, node_name@) == Some(n@),
                None => find_node(self@, node_name@) is None,
            },
    {
        let ghost all = self@;
        let mut i: usize = 0;
        assert(all.subrange(0, all.len() as int) =~= all);
        while i < self.cached.len()
            invariant
                i <= self.cached@.len(),
                all == node_views(self.cached@),
                find_node(all, node_name@) == find_node(
                    all.subrange(i as int, all.len() as int),
                    node_name@,
                ),
            decreases self.cached@.len() - i,
        {
            let ghost rest = all.subrange(i as int, all.len() as int);
            assert(rest[0] == self.cached@[i as int]@);
            if compare_keys(self.cached[i].name.as_str(), node_name) == 0 {
                return Some(self.cached[i].duplicate());
            }
            assert(rest.drop_first() =~= all.subrange(i + 1, all.len() as int));
            i = i + 1;
        }
        None
    }

    /// The nodes of the snapshot that carry every label of the filter, in
    /// snapshot order; an empty filter keeps them all.
    pub fn list(&self, labels: &Vec<Label>) -> (r: Vec<Node>)
        ensures
            node_views(r@) == self@.filter(|n: NodeView| has_labels(n, label_views(labels@))),
    {
        let ghost all = self@;
        let mut out: Vec<Node> = Vec::new();
        let mut i: usize = 0;
        while i < self.cached.len()
            invariant
                i <= self.cached@.len(),
                all == node_views(self.cached@),
                node_views(out@) == all.take(i as int).filter(
                    |n: NodeView| has_labels(n, label_views(labels@)),
                ),
            decreases self.cached@.len() - i,
        {
            let ghost prev = out@;
            assert(all.take(i + 1).drop_last() =~= all.take(i as int));
            assert(all.take(i + 1).last() == self.cached@[i as int]@);
            proof {
                reveal(Seq::filter);
            }
            if self.cached[i].has_labels(labels) {
                out.push(self.cached[i].duplicate());
                assert(node_views(out@) =~= node_views(prev).push(self.cached@[i as int]@));
            }
            i = i + 1;
        }
        assert(all.take(i as int) =~= all);
        out
    }
}

/// The ready nodes that the pods are bound to, looked up in the snapshot.
pub fn nodes_by(pods: &[Pod], api: &CachedNodeApi) -> (r: Vec<Node>)
    ensures
        node_views(r@) == resolved_nodes(pod_views(pods@), api@),
        r@.len() <= pods@.len(),
{
    let ghost all = pod_views(pods@);
    let ghost lookup = |p: PodView|
        match p.2 {
            Some(n) => find_node(api@, n),
            None => None,
        };
    let mut found: Vec<Node> = Vec::new();
    let mut i: usize = 0;
    while i < pods.len()
        invariant
            i <= pods@.len(),
            all == pod_views(pods@),
            found@.len() <= i,
            lookup == (|p: PodView|
                match p.2 {
                    Some(n) => find_node(api@, n),
                    None => None,
                }),
            node_views(found@) == all.take(i as int).filter_map(lookup),
        decreases pods@.len() - i,
    {
        let ghost prev = found@;
        assert(all.take(i + 1).drop_last() =~= all.take(i as int));
        assert(all.take(i + 1).last() == pods@[i as int]@);
        match &pods[i].node_name {
            Some(n) => {
                match api.get(n.as_str()) {
                    Some(node) => {
                        found.push(node);
                        assert(node_views(found@) =~= node_views(prev) + seq![
                            found@[found@.len() - 1]@,
                        ]);
                    },
                    None => {},
                }
            },
            None => {},
        }
        i = i + 1;
    }
    assert(all.take(i as int) =~= all);
    ready_nodes(found.as_slice())
}

/// The topology values of the nodes, and the domain set of the snapshot.
pub fn spreading_status(nodes: &[Node], topology_key: &str, api: &CachedNodeApi) -> (r: (
    Vec<String>,
    Vec<String>,
))
    ensures
        views(r.0@) == topology_values_of(node_views(nodes@), topology_key@),
        r.0@.len() <= nodes@.len(),
        views(r.1@).to_set() == domain_set(api@, topology_key@),
        views(r.1@).no_duplicates(),
{
    let values = topology_values(topology_key, nodes);
    let domains = api.domains(topology_key);
    (values, domains)
}

} // verus!
