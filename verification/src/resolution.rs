use crate::type_info::TypeInfo;
use vstd::prelude::*;

verus! {

/// One step of an in-progress construction: a service together with the
/// provider being built for it. Used for cycle detection and diagnostics.
#[derive(Clone, Copy, Debug, PartialEq)]
pub struct Resolution {
    /// The service being resolved
    pub service: TypeInfo,
    /// The service's underlying provider type
    pub provider: TypeInfo,
}

impl Resolution {
    /// Whether the two records denote the same resolution step. The identity
    /// of a type key is its `id` alone; names play no part.
    pub open spec fn is_same(self, other: Resolution) -> bool {
        self.service.id == other.service.id && self.provider.id == other.provider.id
    }

    /// Compare two resolution steps by the identities of their type keys.
    pub fn same(&self, other: &Resolution) -> (r: bool)
        ensures
            r == self.is_same(*other),
    {
        self.service.id == other.service.id && self.provider.id == other.provider.id
    }
}

} // verus!
