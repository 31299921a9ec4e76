//! Client-side xDS: the resource cascade, the per-cluster client registry,
//! endpoint discovery and request forwarding.
//!
//! Each module is a state machine or a lookup with an exact contract; the
//! tasks, sockets and timers that drive them live outside this crate.

pub mod address;
pub mod backoff;
pub mod cascade;
pub mod cascade_laws;
pub mod cluster_sync;
pub mod data_laws;
pub mod endpoint_laws;
pub mod endpoints;
pub mod error;
pub mod keyed;
pub mod lb;
pub mod numbering;
pub mod registry;
pub mod resource;
pub mod step_laws;
pub mod watchers;
pub mod world;

pub use address::EndpointAddress;
pub use backoff::ConnectBackoff;
pub use cascade::{
    Arm, CascadeAction, CascadeEvent, CascadeState, ResourceError, ResourceEvent,
    CLUSTER_REMOVAL_GRACE,
};
pub use cluster_sync::RegistryClusterSync;
pub use endpoints::{EndpointAction, EndpointDiff};
pub use error::{RoutingError, XdsError};
pub use keyed::{Key, KeyMap, KeySet};
pub use lb::{CallError, LoadBalancingError, RouteDecision, RpcStatus, XdsLbService};
pub use registry::{ClusterClient, ClusterClientRegistry};
pub use resource::{
    ClusterResource, ClusterWeight, EndpointsResource, HealthStatus, ListenerResource,
    LocalityEndpoints, ResolvedEndpoint, RouteConfig, RouteConfigAction, RouteConfigResource,
    RouteSource, VirtualHostConfig,
};
pub use watchers::WatcherMap;
