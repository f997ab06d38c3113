use vstd::prelude::*;

verus! {

/// Identity of a service or provider type.
///
/// The `id` is the unique identifier of the type; `name` is carried for
/// diagnostics only. Equality is defined solely over `id`: two keys for the
/// same type must carry the same `id`, whatever name they were given.
#[derive(Clone, Copy, Debug)]
pub struct TypeInfo {
    /// Unique identifier of the type
    pub id: u64,
    /// Human-readable name of the type, used in diagnostics
    pub name: &'static str,
}

impl TypeInfo {
    /// Build the key for the type with the given identifier and display name.
    pub fn of(id: u64, name: &'static str) -> (r: TypeInfo)
        ensures
            r.id == id,
            r.name == name,
    {
        TypeInfo { id, name }
    }
}

impl PartialEq for TypeInfo {
    fn eq(&self, other: &TypeInfo) -> (r: bool) {
        self.id == other.id
    }
}

impl vstd::std_specs::cmp::PartialEqSpecImpl for TypeInfo {
    open spec fn obeys_eq_spec() -> bool {
        true
    }

    open spec fn eq_spec(&self, other: &TypeInfo) -> bool {
        self.id == other.id
    }
}

} // verus!
