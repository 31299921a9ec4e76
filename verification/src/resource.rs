//! Validated xDS resources.
//!
//! A resource holds what the cascade and the endpoint differ read of it, and a
//! handle: the number under which its owner keeps the whole of it. Who caches or
//! publishes a resource finds the whole by that number.

use crate::address::EndpointAddress;
use crate::data_laws::{
    config_names, law_config_clusters_are_those_routed_to,
    law_healthy_addresses_are_those_of_healthy_endpoints,
};
use crate::keyed::{Key, KeySet};
use vstd::prelude::*;

verus! {

/// A listener: where the routes of a target come from.
#[derive(Debug, PartialEq, Eq)]
pub struct ListenerResource {
    pub name: String,
    pub route_source: RouteSource,
}

/// The routes of a listener, inline or by reference.
#[derive(Debug, PartialEq, Eq)]
pub enum RouteSource {
    /// The route configuration is part of the listener.
    Inline(RouteConfigResource),
    /// The route configuration is a resource of its own, of this name.
    Rds(String),
}

/// A route configuration.
#[derive(Debug, PartialEq, Eq)]
pub struct RouteConfigResource {
    pub name: String,
    pub virtual_hosts: Vec<VirtualHostConfig>,
    /// The whole resource, with match criteria, retries and metadata.
    pub handle: u64,
}

/// The routes of a set of domains.
#[derive(Debug, PartialEq, Eq)]
pub struct VirtualHostConfig {
    pub name: String,
    pub domains: Vec<String>,
    pub routes: Vec<RouteConfig>,
}

/// One route.
#[derive(Debug, PartialEq, Eq)]
pub struct RouteConfig {
    pub action: RouteConfigAction,
}

/// Where a route sends its requests.
#[derive(Debug, PartialEq, Eq)]
pub enum RouteConfigAction {
    /// To one cluster.
    Cluster(String),
    /// To several clusters, by weight.
    WeightedClusters(Vec<ClusterWeight>),
}

/// One destination of a weighted route.
#[derive(Debug, PartialEq, Eq)]
pub struct ClusterWeight {
    pub name: String,
    pub weight: u32,
}

/// A cluster and the name under which its endpoints are published.
#[derive(Debug, PartialEq, Eq)]
pub struct ClusterResource {
    pub name: String,
    pub eds_service_name: String,
    /// The whole resource, with all that is configured for the cluster.
    pub handle: u64,
}

/// The endpoints of a cluster, by locality.
#[derive(Debug, PartialEq, Eq)]
pub struct EndpointsResource {
    pub cluster_name: String,
    pub localities: Vec<LocalityEndpoints>,
    /// The whole resource, with the localities' names.
    pub handle: u64,
}

/// The endpoints of one locality.
#[derive(Debug, PartialEq, Eq)]
pub struct LocalityEndpoints {
    pub endpoints: Vec<ResolvedEndpoint>,
    pub load_balancing_weight: u32,
    pub priority: u32,
}

/// One endpoint.
#[derive(Debug, PartialEq, Eq)]
pub struct ResolvedEndpoint {
    pub address: EndpointAddress,
    pub health_status: HealthStatus,
    pub load_balancing_weight: u32,
}

/// Whether an endpoint may receive requests.
#[derive(Clone, Copy, Debug, PartialEq, Eq, Structural)]
pub enum HealthStatus {
    Healthy,
    Unhealthy,
}

/// The elements of `s` without repetitions, each at its first place.
pub open spec fn distinct<A>(s: Seq<A>) -> Seq<A>
    decreases s.len(),
{
    if s.len() == 0 {
        Seq::empty()
    } else {
        let d = distinct(s.drop_last());
        if d.contains(s.last()) {
            d
        } else {
            d.push(s.last())
        }
    }
}

/// `distinct` keeps every element and repeats none.
pub proof fn lemma_distinct<A>(s: Seq<A>)
    ensures
        distinct(s).no_duplicates(),
        distinct(s).to_set() == s.to_set(),
        distinct(s).len() <= s.len(),
    decreases s.len(),
{
    if s.len() > 0 {
        let t = s.drop_last();
        let d = distinct(t);
        lemma_distinct(t);
        assert forall|x: A| distinct(s).contains(x) == s.contains(x) by {
            assert(d.to_set().contains(x) == t.to_set().contains(x));
            if t.contains(x) {
                assert(s[t.index_of(x)] == x);
            }
            if s.contains(x) && x != s.last() {
                assert(t[s.index_of(x)] == x);
            }
            if d.contains(x) {
                assert(d.push(s.last())[d.index_of(x)] == x);
            }
            assert(s[s.len() - 1] == s.last());
            assert(d.push(s.last())[d.len() as int] == s.last());
        }
        if !d.contains(s.last()) {
            assert forall|i: int| 0 <= i < d.len() implies d[i] != s.last() by {
                if d[i] == s.last() {
                    assert(d.contains(s.last()));
                }
            }
        }
    }
    assert(distinct(s).to_set() =~= s.to_set());
}

/// The clusters that an action names, in order.
pub open spec fn action_references(action: RouteConfigAction) -> Seq<Seq<char>> {
    match action {
        RouteConfigAction::Cluster(name) => seq![name@],
        RouteConfigAction::WeightedClusters(weights) => Seq::new(
            weights@.len(),
            |i: int| weights@[i].name@,
        ),
    }
}

/// The clusters that a list of routes names, in order.
pub open spec fn route_references(routes: Seq<RouteConfig>) -> Seq<Seq<char>>
    decreases routes.len(),
{
    if routes.len() == 0 {
        Seq::empty()
    } else {
        route_references(routes.drop_last()) + action_references(routes.last().action)
    }
}

/// The clusters that a list of virtual hosts names, in order.
pub open spec fn host_references(hosts: Seq<VirtualHostConfig>) -> Seq<Seq<char>>
    decreases hosts.len(),
{
    if hosts.len() == 0 {
        Seq::empty()
    } else {
        host_references(hosts.drop_last()) + route_references(hosts.last().routes@)
    }
}

impl RouteConfigAction {
    /// Adds the clusters that the action names to `names`.
    fn add_cluster_names(&self, names: &mut KeySet<String>, Ghost(before): Ghost<Seq<Seq<char>>>)
        requires
            old(names).wf(),
            old(names).listed() == distinct(before),
        ensures
            final(names).wf(),
            final(names).listed() == distinct(before + action_references(*self)),
    {
        match self {
            RouteConfigAction::Cluster(name) => {
                proof {
                    let s = before + action_references(*self);
                    assert(s.drop_last() =~= before);
                    assert(s.last() == name@);
                }
                let _added = names.insert(name.clone());
            },
            RouteConfigAction::WeightedClusters(weights) => {
                let ghost refs = action_references(*self);
                assert(before + refs.take(0) =~= before);
                let mut i: usize = 0;
                while i < weights.len()
                    invariant
                        i <= weights@.len(),
                        refs == Seq::new(weights@.len(), |j: int| weights@[j].name@),
                        names.wf(),
                        names.listed() == distinct(before + refs.take(i as int)),
                    decreases weights@.len() - i,
                {
                    proof {
                        let s = before + refs.take(i + 1);
                        assert(s.drop_last() =~= before + refs.take(i as int));
                        assert(s.last() == weights@[i as int].name@);
                    }
                    let _added = names.insert(weights[i].name.clone());
                    i = i + 1;
                }
                assert(refs.take(i as int) =~= refs);
            },
        }
    }
}

impl RouteConfigResource {
    /// The clusters that the routes name, in order, with repetitions.
    pub open spec fn references(&self) -> Seq<Seq<char>> {
        host_references(self.virtual_hosts@)
    }

    /// The set of clusters that the routes name.
    pub open spec fn clusters(&self) -> Set<Seq<char>> {
        self.references().to_set()
    }

    /// The clusters that the routes name, each once, in the order in which
    /// they first occur.
    pub fn cluster_names(&self) -> (r: KeySet<String>)
        ensures
            r.wf(),
            r.listed() == distinct(self.references()),
            r@ == self.clusters(),
            forall|n: Seq<char>| #[trigger] r@.contains(n) <==> config_names(*self, n),
    {
        let mut names: KeySet<String> = KeySet::new();
        let hosts = &self.virtual_hosts;
        let mut h: usize = 0;
        while h < hosts.len()
            invariant
                h <= hosts@.len(),
                names.wf(),
                names.listed() == distinct(host_references(hosts@.take(h as int))),
            decreases hosts@.len() - h,
        {
            let routes = &hosts[h].routes;
            let ghost before = host_references(hosts@.take(h as int));
            assert(before + route_references(routes@.take(0)) =~= before);
            let mut i: usize = 0;
            while i < routes.len()
                invariant
                    i <= routes@.len(),
                    names.wf(),
                    names.listed() == distinct(before + route_references(routes@.take(i as int))),
                decreases routes@.len() - i,
            {
                let ghost done = before + route_references(routes@.take(i as int));
                routes[i].action.add_cluster_names(&mut names, Ghost(done));
                proof {
                    assert(routes@.take(i + 1).drop_last() =~= routes@.take(i as int));
                    assert(done + action_references(routes@[i as int].action) =~= before
                        + route_references(routes@.take(i + 1)));
                }
                i = i + 1;
            }
            proof {
                assert(routes@.take(i as int) =~= routes@);
                assert(hosts@.take(h + 1).drop_last() =~= hosts@.take(h as int));
            }
            h = h + 1;
        }
        proof {
            assert(hosts@.take(h as int) =~= hosts@);
            lemma_distinct(self.references());
            assert forall|n: Seq<char>| #[trigger] names@.contains(n) <==> config_names(
                *self,
                n,
            ) by {
                law_config_clusters_are_those_routed_to(*self, n);
            }
        }
        names
    }
}

/// The addresses of the healthy endpoints in a list.
pub open spec fn healthy_of(endpoints: Seq<ResolvedEndpoint>) -> Set<(Seq<char>, u16)> {
    Set::new(
        |a: (Seq<char>, u16)|
            exists|i: int|
                0 <= i < endpoints.len() && (#[trigger] endpoints[i]).health_status
                    == HealthStatus::Healthy && endpoints[i].address@ == a,
    )
}

impl EndpointsResource {
    /// The addresses of the healthy endpoints of all localities.
    pub open spec fn healthy(&self) -> Set<(Seq<char>, u16)> {
        Set::new(
            |a: (Seq<char>, u16)|
                exists|l: int|
                    0 <= l < self.localities@.len() && healthy_of(
                        (#[trigger] self.localities@[l]).endpoints@,
                    ).contains(a),
        )
    }

    /// The addresses of the endpoints that may receive requests.
    pub fn healthy_addresses(&self) -> (r: KeySet<EndpointAddress>)
        ensures
            r.wf(),
            r@ == self.healthy(),
            forall|l: int, i: int|
                0 <= l < self.localities@.len() && 0 <= i < self.localities@[l].endpoints@.len()
                    && (#[trigger] self.localities@[l].endpoints@[i]).health_status
                    == HealthStatus::Healthy ==> r@.contains(
                    self.localities@[l].endpoints@[i].address@,
                ),
            forall|a: (Seq<char>, u16)| #[trigger]
                r@.contains(a) ==> exists|l: int, i: int|
                    0 <= l < self.localities@.len() && 0 <= i < self.localities@[l].endpoints@.len()
                        && (#[trigger] self.localities@[l].endpoints@[i]).health_status
                        == HealthStatus::Healthy && self.localities@[l].endpoints@[i].address@ == a,
    {
        let mut r: KeySet<EndpointAddress> = KeySet::new();
        let mut l: usize = 0;
        while l < self.localities.len()
            invariant
                l <= self.localities@.len(),
                r.wf(),
                forall|a: (Seq<char>, u16)| #[trigger]
                    r@.contains(a) <==> exists|m: int|
                        0 <= m < l && healthy_of(
                            (#[trigger] self.localities@[m]).endpoints@,
                        ).contains(a),
            decreases self.localities@.len() - l,
        {
            let endpoints = &self.localities[l].endpoints;
            let ghost before = r@;
            let mut i: usize = 0;
            while i < endpoints.len()
                invariant
                    i <= endpoints@.len(),
                    r.wf(),
                    forall|a: (Seq<char>, u16)| #[trigger]
                        r@.contains(a) <==> (before.contains(a) || healthy_of(
                            endpoints@.take(i as int),
                        ).contains(a)),
                decreases endpoints@.len() - i,
            {
                let endpoint = &endpoints[i];
                let healthy = endpoint.health_status == HealthStatus::Healthy;
                if healthy {
                    let _added = r.insert(endpoint.address.duplicate());
                }
                proof {
                    let p = endpoints@.take(i as int);
                    let q = endpoints@.take(i + 1);
                    assert forall|a: (Seq<char>, u16)| healthy_of(q).contains(a) == (healthy_of(
                        p,
                    ).contains(a) || (healthy && a == endpoint.address@)) by {
                        if healthy_of(p).contains(a) {
                            let j = choose|j: int|
                                0 <= j < p.len() && (#[trigger] p[j]).health_status
                                    == HealthStatus::Healthy && p[j].address@ == a;
                            assert(q[j] == p[j]);
                        }
                        if healthy_of(q).contains(a) {
                            let j = choose|j: int|
                                0 <= j < q.len() && (#[trigger] q[j]).health_status
                                    == HealthStatus::Healthy && q[j].address@ == a;
                            if j < i {
                                assert(p[j] == q[j]);
                            }
                        }
                        assert(q[i as int] == *endpoint);
                    }
                }
                i = i + 1;
            }
            proof {
                assert(endpoints@.take(i as int) =~= endpoints@);
                assert forall|a: (Seq<char>, u16)| #[trigger] r@.contains(a) <==> exists|m: int|
                    0 <= m < l + 1 && healthy_of(
                        (#[trigger] self.localities@[m]).endpoints@,
                    ).contains(a) by {
                    if healthy_of(endpoints@).contains(a) {
                        assert(healthy_of(self.localities@[l as int].endpoints@).contains(a));
                    }
                }
            }
            l = l + 1;
        }
        proof {
            assert(r@ =~= self.healthy());
            assert forall|l: int, i: int|
                0 <= l < self.localities@.len() && 0 <= i < self.localities@[l].endpoints@.len()
                    && (#[trigger] self.localities@[l].endpoints@[i]).health_status
                    == HealthStatus::Healthy implies r@.contains(
                self.localities@[l].endpoints@[i].address@,
            ) by {
                law_healthy_addresses_are_those_of_healthy_endpoints(
                    *self,
                    self.localities@[l].endpoints@[i].address@,
                );
            }
            assert forall|a: (Seq<char>, u16)| #[trigger] r@.contains(a) implies exists|
                l: int,
                i: int,
            |
                0 <= l < self.localities@.len() && 0 <= i < self.localities@[l].endpoints@.len()
                    && (#[trigger] self.localities@[l].endpoints@[i]).health_status
                    == HealthStatus::Healthy
                    && self.localities@[l].endpoints@[i].address@ == a by {
                law_healthy_addresses_are_those_of_healthy_endpoints(*self, a);
            }
        }
        r
    }
}

} // verus!
