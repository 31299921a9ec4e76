//! Forwarding each request to the client of the cluster that the routing layer
//! chose for it.

use crate::registry::{law_sync_is_exact, ClusterClient, ClusterClientRegistry, RegistryView};
use vstd::prelude::*;

verus! {

/// The routing layer's choice for a request, carried in its extensions.
#[derive(Debug, PartialEq, Eq)]
pub struct RouteDecision {
    /// The cluster to send the request to.
    pub cluster: String,
}

impl Clone for RouteDecision {
    fn clone(&self) -> (r: Self)
        ensures
            r == *self,
    {
        RouteDecision { cluster: self.cluster.clone() }
    }
}

/// Why a request could not be given to a cluster's client.
#[derive(Debug, PartialEq, Eq)]
pub enum LoadBalancingError {
    /// The request carries no [`RouteDecision`].
    NoRoutingDecision,
    /// The cluster of this name has no client.
    ClusterNotFound(String),
}

impl Clone for LoadBalancingError {
    fn clone(&self) -> (r: Self)
        ensures
            r == *self,
    {
        match self {
            LoadBalancingError::NoRoutingDecision => LoadBalancingError::NoRoutingDecision,
            LoadBalancingError::ClusterNotFound(cluster) => LoadBalancingError::ClusterNotFound(
                cluster.clone(),
            ),
        }
    }
}

/// What is said of a cluster without a client.
pub open spec fn not_found_text(cluster: Seq<char>) -> Seq<char> {
    "no client for cluster '"@ + cluster + "': not in the current route configuration"@
}

impl LoadBalancingError {
    /// The text of the error.
    pub open spec fn text(self) -> Seq<char> {
        match self {
            LoadBalancingError::NoRoutingDecision =>
                "No routing decision extension from the routing layer available"@,
            LoadBalancingError::ClusterNotFound(cluster) => not_found_text(cluster@),
        }
    }

    /// The text of the error.
    pub fn to_string(&self) -> (r: String)
        ensures
            r@ == self.text(),
    {
        match self {
            LoadBalancingError::NoRoutingDecision => String::from_str(
                "No routing decision extension from the routing layer available",
            ),
            LoadBalancingError::ClusterNotFound(cluster) => {
                let mut text = String::from_str("no client for cluster '");
                text.append(cluster.as_str());
                text.append("': not in the current route configuration");
                text
            },
        }
    }
}

/// The outcome of a failed call: a status code and a message.
#[derive(Debug, PartialEq, Eq)]
pub struct RpcStatus {
    pub code: i32,
    pub message: String,
}

/// The code UNAVAILABLE, which callers and retry policies take for a transient
/// condition.
pub const UNAVAILABLE: i32 = 14;

/// [`tonic::Status::unavailable`]: the status of code UNAVAILABLE with
/// `message` as its message.
///
/// Nothing is said of its details, metadata and source.
#[verifier::external_body]
fn status_unavailable(message: String) -> (r: RpcStatus)
    ensures
        r.code == UNAVAILABLE,
        r.message@ == message@,
{
    let status = tonic::Status::unavailable(message);
    RpcStatus { code: i32::from(status.code()), message: status.message().to_string() }
}

/// The type of [`http::Extensions`], opaque here.
#[verifier::external_type_specification]
#[verifier::external_body]
pub struct ExExtensions(http::Extensions);

/// The clusters of the [`RouteDecision`]s among a request's extensions: one, or
/// none.
pub uninterp spec fn carried_decisions(extensions: http::Extensions) -> Seq<Seq<char>>;

/// The clusters of an optional decision: one, or none.
pub open spec fn clusters_of(decision: Option<RouteDecision>) -> Seq<Seq<char>> {
    match decision {
        Some(decision) => seq![decision.cluster@],
        None => Seq::empty(),
    }
}

/// [`http::Extensions::get`] for a [`RouteDecision`], copied: the decision
/// among the extensions, if there is one.
#[verifier::external_body]
fn extensions_get_decision(extensions: &http::Extensions) -> (r: Option<RouteDecision>)
    ensures
        clusters_of(r) == carried_decisions(*extensions),
{
    extensions.get::<RouteDecision>().cloned()
}

/// Why a request was not forwarded.
#[derive(Debug, PartialEq, Eq)]
pub enum CallError {
    /// The request is refused with this error.
    LoadBalancing(LoadBalancingError),
    /// The call fails with this status.
    Status(RpcStatus),
}

/// What becomes of a request whose decision names the clusters `decisions`,
/// one or none: without a decision it is refused; with one for a cluster that
/// has no client it fails with UNAVAILABLE at once; otherwise it goes to that
/// cluster's client.
pub open spec fn forwarded(
    registry: RegistryView,
    decisions: Seq<Seq<char>>,
    r: Result<ClusterClient, CallError>,
) -> bool {
    if decisions.len() == 0 {
        r == Err::<ClusterClient, CallError>(
            CallError::LoadBalancing(LoadBalancingError::NoRoutingDecision),
        )
    } else if registry.clients.contains_key(decisions[0]) {
        r is Ok && r->Ok_0@ == (decisions[0], registry.clients[decisions[0]])
    } else {
        r matches Err(CallError::Status(status)) && status.code == UNAVAILABLE && status.message@
            == not_found_text(decisions[0])
    }
}

/// Forwards requests to the clients of a registry. It only looks clients up; it
/// never creates or drops one.
pub struct XdsLbService<'a> {
    cluster_registry: &'a ClusterClientRegistry,
}

impl<'a> View for XdsLbService<'a> {
    type V = RegistryView;

    closed spec fn view(&self) -> RegistryView {
        self.cluster_registry@
    }
}

impl<'a> XdsLbService<'a> {
    /// A service over this registry.
    pub fn new(cluster_registry: &'a ClusterClientRegistry) -> (r: Self)
        ensures
            r@ == cluster_registry@,
    {
        XdsLbService { cluster_registry }
    }

    /// Whether the service takes a request now: always, because the cluster
    /// whose readiness counts is known only from the request.
    pub fn poll_ready(&self) -> (r: bool)
        ensures
            r,
    {
        true
    }

    /// Picks the client for a request that carries these extensions.
    pub fn call(&self, extensions: &http::Extensions) -> (r: Result<ClusterClient, CallError>)
        ensures
            forwarded(self@, carried_decisions(*extensions), r),
    {
        self.call_decided(extensions_get_decision(extensions))
    }

    /// Picks the client for a request with this decision.
    pub fn call_decided(&self, decision: Option<RouteDecision>) -> (r: Result<
        ClusterClient,
        CallError,
    >)
        ensures
            forwarded(self@, clusters_of(decision), r),
    {
        let decision = match decision {
            Some(decision) => decision,
            None => {
                return Err(CallError::LoadBalancing(LoadBalancingError::NoRoutingDecision));
            },
        };
        match self.cluster_registry.get_cluster(decision.cluster.as_str()) {
            Some(client) => Ok(client),
            None => {
                let error = LoadBalancingError::ClusterNotFound(decision.cluster);
                Err(CallError::Status(status_unavailable(error.to_string())))
            },
        }
    }
}

/// A request goes to the client of the cluster that its decision names, if that cluster
/// has one, whichever it is; otherwise it fails at once with the code 14 and a message
/// that names the cluster; without a decision it is refused.
pub proof fn law_request_goes_where_it_was_decided(
    registry: RegistryView,
    decision: RouteDecision,
    decided: Result<ClusterClient, CallError>,
    undecided: Result<ClusterClient, CallError>,
)
    requires
        forwarded(registry, clusters_of(Some(decision)), decided),
        forwarded(registry, clusters_of(None), undecided),
    ensures
        registry.clients.contains_key(decision.cluster@) ==> {
            &&& decided is Ok
            &&& decided->Ok_0@.0 == decision.cluster@
            &&& decided->Ok_0@.1 == registry.clients[decision.cluster@]
        },
        !registry.clients.contains_key(decision.cluster@) ==> {
            &&& decided matches Err(CallError::Status(status))
            &&& status.code == 14
            &&& status.message@ == "no client for cluster '"@ + decision.cluster@
                + "': not in the current route configuration"@
        },
        undecided matches Err(CallError::LoadBalancing(LoadBalancingError::NoRoutingDecision)),
{
}

/// The texts of the errors; that of a missing client names its cluster as it is.
pub proof fn law_texts_name_the_cluster(cluster: String)
    ensures
        LoadBalancingError::ClusterNotFound(cluster).text() == "no client for cluster '"@
            + cluster@ + "': not in the current route configuration"@,
        LoadBalancingError::NoRoutingDecision.text()
            == "No routing decision extension from the routing layer available"@,
{
}

/// A request that was given a client keeps it when its cluster is evicted; a later
/// request for that cluster fails with UNAVAILABLE, and neither brings a client of
/// it back.
pub proof fn law_request_racing_eviction(
    pre: RegistryView,
    active: Seq<Seq<char>>,
    cluster: Seq<char>,
    early: Result<ClusterClient, CallError>,
    late: Result<ClusterClient, CallError>,
)
    requires
        pre.wf(),
        pre.clients.contains_key(cluster),
        active.no_duplicates(),
        pre.fits(active),
        !active.contains(cluster),
        forwarded(pre, seq![cluster], early),
        forwarded(pre.synced(active), seq![cluster], late),
    ensures
        early is Ok,
        early->Ok_0@ == (cluster, pre.clients[cluster]),
        late matches Err(CallError::Status(status)) && status.code == UNAVAILABLE
            && status.message@ == not_found_text(cluster),
        !pre.synced(active).clients.contains_key(cluster),
        pre.synced(active).clients.dom() == active.to_set(),
{
    law_sync_is_exact(pre, active);
    assert(!active.to_set().contains(cluster));
    assert(!pre.synced(active).clients.dom().contains(cluster));
}

impl<'a> Clone for XdsLbService<'a> {
    fn clone(&self) -> (r: Self)
        ensures
            r@ == self@,
    {
        XdsLbService { cluster_registry: self.cluster_registry }
    }
}

} // verus!
