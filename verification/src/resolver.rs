use crate::container::Container;
use crate::error::Error;
use crate::type_info::TypeInfo;
use vstd::prelude::*;

verus! {

/// Abstraction over resolution engines: anything a consumer can pull
/// service instances out of by type key. [`Container`] is the engine this
/// crate provides; the trait lets callers stay generic over it.
pub trait Resolver {
    /// Whether the engine is in a state fit for use.
    spec fn ready(&self) -> bool;

    /// Resolve an instance of `service`, returning its handle.
    fn resolve(&mut self, service: TypeInfo) -> (r: Result<usize, Error>)
        requires
            old(self).ready(),
        ensures
            final(self).ready(),
    ;
}

impl Resolver for Container {
    open spec fn ready(&self) -> bool {
        self.inv()
    }

    fn resolve(&mut self, service: TypeInfo) -> (r: Result<usize, Error>) {
        self.resolve(service)
    }
}

} // verus!
