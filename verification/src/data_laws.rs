//! Laws of the data: what the resources name, and how values are read and written.

use crate::address::{decimal, EndpointAddress};
use crate::cascade::{ActionView, CascadeAction, ResourceError, ResourceEvent};
use crate::endpoints::{EndpointAction, EndpointActionView};
use crate::keyed::{lists, views, KeySet};
use crate::resource::{
    action_references, healthy_of, host_references, route_references, ClusterResource,
    EndpointsResource, HealthStatus, RouteConfig, RouteConfigAction, RouteConfigResource,
    VirtualHostConfig,
};
use vstd::prelude::*;

verus! {

/// The action sends requests to the cluster `n`.
pub open spec fn action_names(action: RouteConfigAction, n: Seq<char>) -> bool {
    match action {
        RouteConfigAction::Cluster(cluster) => cluster@ == n,
        RouteConfigAction::WeightedClusters(weights) => exists|i: int|
            0 <= i < weights@.len() && (#[trigger] weights@[i]).name@ == n,
    }
}

/// Some route of some virtual host sends requests to the cluster `n`.
pub open spec fn config_names(config: RouteConfigResource, n: Seq<char>) -> bool {
    exists|h: int, r: int|
        0 <= h < config.virtual_hosts@.len() && 0 <= r < config.virtual_hosts@[h].routes@.len()
            && action_names((#[trigger] config.virtual_hosts@[h].routes@[r]).action, n)
}

/// The members of two lists, one after the other.
proof fn lemma_concat_contains(a: Seq<Seq<char>>, b: Seq<Seq<char>>, n: Seq<char>)
    ensures
        (a + b).contains(n) <==> a.contains(n) || b.contains(n),
{
    if a.contains(n) {
        assert((a + b)[a.index_of(n)] == n);
    }
    if b.contains(n) {
        assert((a + b)[a.len() + b.index_of(n)] == n);
    }
    if (a + b).contains(n) {
        let i = (a + b).index_of(n);
        if i < a.len() {
            assert(a[i] == n);
        } else {
            assert(b[i - a.len()] == n);
        }
    }
}

/// The references of an action are the clusters that it names.
proof fn lemma_action_references(action: RouteConfigAction, n: Seq<char>)
    ensures
        action_references(action).contains(n) <==> action_names(action, n),
{
    let refs = action_references(action);
    match action {
        RouteConfigAction::Cluster(cluster) => {
            assert(refs[0] == cluster@);
        },
        RouteConfigAction::WeightedClusters(weights) => {
            if refs.contains(n) {
                let i = refs.index_of(n);
                assert(weights@[i].name@ == n);
            }
            if action_names(action, n) {
                let i = choose|i: int|
                    0 <= i < weights@.len() && (#[trigger] weights@[i]).name@ == n;
                assert(refs[i] == n);
            }
        },
    }
}

/// The references of routes are the clusters that some of them names.
proof fn lemma_route_references(routes: Seq<RouteConfig>, n: Seq<char>)
    ensures
        route_references(routes).contains(n) <==> exists|r: int|
            0 <= r < routes.len() && action_names((#[trigger] routes[r]).action, n),
    decreases routes.len(),
{
    if routes.len() > 0 {
        let before = routes.drop_last();
        lemma_route_references(before, n);
        lemma_action_references(routes.last().action, n);
        lemma_concat_contains(
            route_references(before),
            action_references(routes.last().action),
            n,
        );
        assert(routes[routes.len() - 1] == routes.last());
        assert forall|r: int| 0 <= r < before.len() implies before[r] == #[trigger] routes[r] by {}
        if exists|r: int| 0 <= r < before.len() && action_names((#[trigger] before[r]).action, n) {
            let r = choose|r: int|
                0 <= r < before.len() && action_names((#[trigger] before[r]).action, n);
            assert(action_names(routes[r].action, n));
        }
        if exists|r: int| 0 <= r < routes.len() && action_names((#[trigger] routes[r]).action, n) {
            let r = choose|r: int|
                0 <= r < routes.len() && action_names((#[trigger] routes[r]).action, n);
            if r < before.len() {
                assert(action_names(before[r].action, n));
            }
        }
    }
}

/// The references of virtual hosts are those of the routes of some of them.
proof fn lemma_host_references(hosts: Seq<VirtualHostConfig>, n: Seq<char>)
    ensures
        host_references(hosts).contains(n) <==> exists|h: int|
            0 <= h < hosts.len() && route_references((#[trigger] hosts[h]).routes@).contains(n),
    decreases hosts.len(),
{
    if hosts.len() > 0 {
        let before = hosts.drop_last();
        lemma_host_references(before, n);
        lemma_concat_contains(
            host_references(before),
            route_references(hosts.last().routes@),
            n,
        );
        assert(hosts[hosts.len() - 1] == hosts.last());
        if exists|h: int|
            0 <= h < before.len() && route_references((#[trigger] before[h]).routes@).contains(n) {
            let h = choose|h: int|
                0 <= h < before.len() && route_references((#[trigger] before[h]).routes@).contains(
                    n,
                );
            assert(route_references(hosts[h].routes@).contains(n));
        }
        if exists|h: int|
            0 <= h < hosts.len() && route_references((#[trigger] hosts[h]).routes@).contains(n) {
            let h = choose|h: int|
                0 <= h < hosts.len() && route_references((#[trigger] hosts[h]).routes@).contains(n);
            if h < before.len() {
                assert(route_references(before[h].routes@).contains(n));
            }
        }
    }
}

/// The clusters of a configuration are exactly those that some route of some virtual
/// host sends requests to, alone or among several by weight.
pub proof fn law_config_clusters_are_those_routed_to(config: RouteConfigResource, n: Seq<char>)
    ensures
        config.clusters().contains(n) <==> config_names(config, n),
        config.references().contains(n) <==> config_names(config, n),
{
    let hosts = config.virtual_hosts@;
    lemma_host_references(hosts, n);
    if config.references().contains(n) {
        let h = choose|h: int|
            0 <= h < hosts.len() && route_references((#[trigger] hosts[h]).routes@).contains(n);
        lemma_route_references(hosts[h].routes@, n);
        let r = choose|r: int|
            0 <= r < hosts[h].routes@.len() && action_names(
                (#[trigger] hosts[h].routes@[r]).action,
                n,
            );
        assert(action_names(config.virtual_hosts@[h].routes@[r].action, n));
    }
    if config_names(config, n) {
        let (h, r) = choose|h: int, r: int|
            0 <= h < hosts.len() && 0 <= r < hosts[h].routes@.len() && action_names(
                (#[trigger] config.virtual_hosts@[h].routes@[r]).action,
                n,
            );
        lemma_route_references(hosts[h].routes@, n);
        assert(action_names(hosts[h].routes@[r].action, n));
        assert(route_references(hosts[h].routes@).contains(n));
    }
}

/// The healthy addresses of a snapshot are exactly those of the healthy endpoints of
/// all of its localities.
pub proof fn law_healthy_addresses_are_those_of_healthy_endpoints(
    endpoints: EndpointsResource,
    a: (Seq<char>, u16),
)
    ensures
        endpoints.healthy().contains(a) <==> exists|l: int, i: int|
            0 <= l < endpoints.localities@.len() && 0 <= i
                < endpoints.localities@[l].endpoints@.len() && (
            #[trigger] endpoints.localities@[l].endpoints@[i]).health_status
                == HealthStatus::Healthy && endpoints.localities@[l].endpoints@[i].address@ == a,
{
    let localities = endpoints.localities@;
    if endpoints.healthy().contains(a) {
        let l = choose|l: int|
            0 <= l < localities.len() && healthy_of((#[trigger] localities[l]).endpoints@).contains(
                a,
            );
        let list = localities[l].endpoints@;
        let i = choose|i: int|
            0 <= i < list.len() && (#[trigger] list[i]).health_status == HealthStatus::Healthy
                && list[i].address@ == a;
        assert(endpoints.localities@[l].endpoints@[i].address@ == a);
    }
    if exists|l: int, i: int|
        0 <= l < localities.len() && 0 <= i < localities[l].endpoints@.len() && (
        #[trigger] localities[l].endpoints@[i]).health_status == HealthStatus::Healthy
            && localities[l].endpoints@[i].address@ == a {
        let (l, i) = choose|l: int, i: int|
            0 <= l < localities.len() && 0 <= i < localities[l].endpoints@.len() && (
            #[trigger] localities[l].endpoints@[i]).health_status == HealthStatus::Healthy
                && localities[l].endpoints@[i].address@ == a;
        let list = localities[l].endpoints@;
        assert(list[i].health_status == HealthStatus::Healthy);
        assert(healthy_of(localities[l].endpoints@).contains(a));
    }
}

/// The number that a text of digits stands for.
pub open spec fn text_value(s: Seq<char>) -> int
    decreases s.len(),
{
    if s.len() == 0 {
        0
    } else {
        text_value(s.drop_last()) * 10 + (s.last() as int - '0' as int)
    }
}

/// The decimal notation of a number is read back as that number; it consists of
/// digits, and starts with a zero only if it is the zero.
pub proof fn law_decimal_is_read_back(n: nat)
    ensures
        text_value(decimal(n)) == n,
        decimal(n).len() > 0,
        forall|i: int| 0 <= i < decimal(n).len() ==> '0' <= #[trigger] decimal(n)[i] <= '9',
        decimal(n)[0] == '0' ==> n == 0,
        n == 0 ==> decimal(n).len() == 1,
    decreases n,
{
    reveal_with_fuel(text_value, 2);
    if n < 10 {
        assert(decimal(n).drop_last() =~= Seq::<char>::empty());
    } else {
        law_decimal_is_read_back(n / 10);
        assert(decimal(n).drop_last() =~= decimal(n / 10));
        assert(decimal(n)[0] == decimal(n / 10)[0]);
    }
}

/// A list is viewed element by element.
pub proof fn law_views_are_elementwise<K: View>(s: Seq<K>)
    ensures
        views(s).len() == s.len(),
        forall|i: int| 0 <= i < s.len() ==> #[trigger] views(s)[i] == s[i]@,
{
}

/// A listing of a set holds each member at one place, and nothing else.
pub proof fn law_listings_hold_each_member_once<A>(order: Seq<A>, set: Set<A>)
    requires
        lists(order, set),
    ensures
        forall|x: A| #[trigger] set.contains(x) <==> order.contains(x),
        forall|i: int, j: int|
            0 <= i < j < order.len() ==> #[trigger] order[i] != #[trigger] order[j],
{
    assert forall|x: A| #[trigger] set.contains(x) <==> order.contains(x) by {
        assert(order.to_set().contains(x) == order.contains(x));
    }
}

/// The members of a set are those that it lists.
pub proof fn law_set_members_are_listed(set: KeySet<String>, n: Seq<char>)
    ensures
        set@.contains(n) <==> set.listed().contains(n),
{
}

/// An event delivers a resource exactly if it is a change to that resource: an error
/// delivers none.
pub proof fn law_events_deliver_their_resource<T>(resource: T, error: ResourceError)
    ensures
        (ResourceEvent::ResourceChanged { result: Ok(resource) }).resource() == Some(resource),
        (ResourceEvent::<T>::ResourceChanged { result: Err(error) }).resource() is None,
        (ResourceEvent::<T>::AmbientError { error }).resource() is None,
{
}

/// An action is viewed as what it says, with the names as texts.
pub proof fn law_actions_are_viewed_as_they_are(
    names: KeySet<String>,
    config: RouteConfigResource,
    cluster: String,
    name: String,
    resource: ClusterResource,
    endpoints: EndpointsResource,
    watch: u64,
)
    ensures
        CascadeAction::AddClusters(names)@ == ActionView::AddClusters(names.listed()),
        CascadeAction::EvictClusters(names)@ == ActionView::EvictClusters(names@),
        CascadeAction::PublishRouteConfig(config)@ == ActionView::PublishRouteConfig(config),
        (CascadeAction::UpdateCluster { cluster, resource })@ == (ActionView::UpdateCluster {
            cluster: cluster@,
            resource,
        }),
        (CascadeAction::UpdateEndpoints { cluster, endpoints })@ == (ActionView::UpdateEndpoints {
            cluster: cluster@,
            endpoints,
        }),
        CascadeAction::RemoveCluster(cluster)@ == ActionView::RemoveCluster(cluster@),
        CascadeAction::RemoveEndpoints(cluster)@ == ActionView::RemoveEndpoints(cluster@),
        CascadeAction::WatchListener(name)@ == ActionView::WatchListener(name@),
        (CascadeAction::WatchRouteConfig { name, watch })@ == (ActionView::WatchRouteConfig {
            name: name@,
            watch,
        }),
        (CascadeAction::WatchCluster { cluster, watch })@ == (ActionView::WatchCluster {
            cluster: cluster@,
            watch,
        }),
        (CascadeAction::WatchEndpoints { cluster, name, watch })@ == (ActionView::WatchEndpoints {
            cluster: cluster@,
            name: name@,
            watch,
        }),
        CascadeAction::DropRouteConfigWatch(watch)@ == ActionView::DropRouteConfigWatch(watch),
        CascadeAction::DropClusterWatch(watch)@ == ActionView::DropClusterWatch(watch),
        CascadeAction::DropEndpointsWatch(watch)@ == ActionView::DropEndpointsWatch(watch),
        CascadeAction::Acknowledge@ == ActionView::Acknowledge,
{
}

/// An endpoint action is viewed as what it says, with the address as host and port.
pub proof fn law_endpoint_actions_are_viewed_as_they_are(a: EndpointAddress)
    ensures
        EndpointAction::Connect(a)@ == EndpointActionView::Connect(a@),
        EndpointAction::Cancel(a)@ == EndpointActionView::Cancel(a@),
        EndpointAction::Insert(a)@ == EndpointActionView::Insert(a@),
        EndpointAction::Remove(a)@ == EndpointActionView::Remove(a@),
        EndpointAction::Resubscribe@ == EndpointActionView::Resubscribe,
{
}

} // verus!
