//! Keeps the clusters' clients in step with the route configuration.
//!
//! Clients are created before a configuration that needs them is published,
//! and dropped only when a cluster that left the routes is torn down.

use crate::cascade::{ActionView, CascadeAction};
use crate::keyed::{views, KeySet};
use crate::registry::{
    created_clients, law_clusters_fit_while_there_is_room, ClusterClient, ClusterClientRegistry,
    RegistryView,
};
use vstd::prelude::*;

verus! {

/// The clients once an action of the cascade has been performed.
pub open spec fn registry_after(pre: RegistryView, action: ActionView) -> RegistryView {
    match action {
        ActionView::AddClusters(names) => pre.with_added(names),
        ActionView::EvictClusters(keep) => pre.with_kept(keep),
        _ => pre,
    }
}

/// The clusters that an action wants clients for are listed once each, and
/// there are numbers left for them.
pub open spec fn registry_fits(pre: RegistryView, action: ActionView) -> bool {
    match action {
        ActionView::AddClusters(names) => names.no_duplicates() && pre.fits(names),
        _ => true,
    }
}

/// The clients that an action creates.
pub open spec fn registry_created(pre: RegistryView, action: ActionView) -> Seq<(Seq<char>, u64)> {
    match action {
        ActionView::AddClusters(names) => created_clients(pre.missing(names), pre.next),
        _ => Seq::empty(),
    }
}

/// An action that asks for clients leads to what adding them leads to, one that evicts
/// to what evicting leads to, and no other changes the clients or creates any.
pub proof fn law_actions_reach_the_clients(
    pre: RegistryView,
    names: Seq<Seq<char>>,
    keep: Set<Seq<char>>,
    other: ActionView,
)
    requires
        !(other is AddClusters),
        !(other is EvictClusters),
    ensures
        registry_after(pre, ActionView::AddClusters(names)) == pre.with_added(names),
        registry_created(pre, ActionView::AddClusters(names)) == created_clients(
            pre.missing(names),
            pre.next,
        ),
        registry_after(pre, ActionView::EvictClusters(keep)) == pre.with_kept(keep),
        registry_created(pre, ActionView::EvictClusters(keep)).len() == 0,
        registry_after(pre, other) == pre,
        registry_created(pre, other).len() == 0,
        names.no_duplicates() && pre.next + names.len() <= u64::MAX ==> registry_fits(
            pre,
            ActionView::AddClusters(names),
        ),
        registry_fits(pre, ActionView::EvictClusters(keep)),
        registry_fits(pre, other),
{
    if pre.next + names.len() <= u64::MAX {
        law_clusters_fit_while_there_is_room(pre, names);
    }
}

/// A registry of clients that follows the cascade.
pub struct RegistryClusterSync {
    registry: ClusterClientRegistry,
}

impl View for RegistryClusterSync {
    type V = RegistryView;

    closed spec fn view(&self) -> RegistryView {
        self.registry@
    }
}

impl RegistryClusterSync {
    /// The registry is well-formed.
    pub open spec fn wf(&self) -> bool {
        self@.wf()
    }

    /// Takes charge of a registry.
    pub fn new(registry: ClusterClientRegistry) -> (r: Self)
        ensures
            r@ == registry@,
    {
        RegistryClusterSync { registry }
    }

    /// The registry.
    pub fn registry(&self) -> (r: &ClusterClientRegistry)
        ensures
            r@ == self@,
    {
        &self.registry
    }

    /// Creates clients for those of `active` that have none, and returns them.
    pub fn add_clusters(&mut self, active: &KeySet<String>) -> (r: Vec<ClusterClient>)
        requires
            old(self).wf(),
            active.wf(),
            old(self)@.fits(active.listed()),
        ensures
            final(self).wf(),
            final(self)@ == old(self)@.with_added(active.listed()),
            views(r@) == created_clients(
                old(self)@.missing(active.listed()),
                old(self)@.next,
            ),
    {
        self.registry.add_clusters(active)
    }

    /// Drops the clients of clusters outside `keep`.
    pub fn evict_clusters(&mut self, keep: &KeySet<String>)
        requires
            old(self).wf(),
        ensures
            final(self).wf(),
            final(self)@ == old(self)@.with_kept(keep@),
    {
        self.registry.evict_clusters(keep)
    }

    /// Makes the clusters with a client exactly those of `active`, and returns
    /// the new clients.
    pub fn sync_clusters(&mut self, active: &KeySet<String>) -> (r: Vec<ClusterClient>)
        requires
            old(self).wf(),
            active.wf(),
            old(self)@.fits(active.listed()),
        ensures
            final(self).wf(),
            final(self)@ == old(self)@.synced(active.listed()),
            views(r@) == created_clients(
                old(self)@.missing(active.listed()),
                old(self)@.next,
            ),
    {
        self.registry.sync_clusters(active)
    }

    /// Performs what an action of the cascade asks of the clients, and returns
    /// the clients that it created.
    pub fn perform(&mut self, action: &CascadeAction) -> (r: Vec<ClusterClient>)
        requires
            old(self).wf(),
            registry_fits(old(self)@, action@),
        ensures
            final(self).wf(),
            final(self)@ == registry_after(old(self)@, action@),
            views(r@) == registry_created(old(self)@, action@),
    {
        let mut created: Vec<ClusterClient> = Vec::new();
        assert(views(created@) =~= Seq::<(Seq<char>, u64)>::empty());
        match action {
            CascadeAction::AddClusters(active) => {
                created = self.add_clusters(active);
            },
            CascadeAction::EvictClusters(keep) => self.evict_clusters(keep),
            _ => {},
        }
        created
    }
}

} // verus!
