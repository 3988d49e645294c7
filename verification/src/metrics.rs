//! The registry of a bank service's metrics.
use vstd::prelude::*;
use prometheus::Registry;
use std::sync::Arc;

verus! {

/// A metric registry of another library, carried as it is.
#[verifier::external_type_specification]
#[verifier::external_body]
pub struct ExRegistry(prometheus::Registry);

/// The names of the metric families a registry holds (what its `gather`
/// reports). The library never registers a metric; the service's handlers
/// do, through shared handles.
pub uninterp spec fn registry_families(r: Registry) -> Set<Seq<char>>;

/// A fresh registry (`prometheus::Registry::new`, which builds its core with
/// no collector registered), so it holds no metric family.
#[verifier::external_body]
fn new_registry() -> (r: Registry)
    ensures
        registry_families(r) == Set::<Seq<char>>::empty(),
{
    Registry::new()
}

/// The metrics of a service, shared by its request handlers.
#[derive(Clone)]
pub struct MetricsState {
    pub registry: Arc<Registry>,
}

impl MetricsState {
    /// A state with a fresh, empty registry.
    pub fn new() -> (m: MetricsState)
        ensures
            registry_families(*m.registry) == Set::<Seq<char>>::empty(),
    {
        MetricsState { registry: Arc::new(new_registry()) }
    }
}

} // verus!
