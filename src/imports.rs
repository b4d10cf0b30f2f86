//! The layout of the import object that the script sees under its
//! environment: one callable per capability, the reallocation callback and
//! the memory object.
use crate::capability::{hyphenated, identifier_spec, all_spec, Capability};
use vstd::prelude::*;

verus! {

/// What a property of the import object is bound to.
pub enum Binding {
    /// The callable that forwards to the host symbol of a capability.
    Capability(Capability),
    /// The reallocation callback of the memory bridge.
    Realloc,
    /// A byte buffer over the whole linear memory, growing with it.
    LinearMemory,
    /// A plain object with the given properties.
    Object(Vec<Property>),
}

/// One named property.
pub struct Property {
    pub name: String,
    pub binding: Binding,
}

/// The memory object: its `buffer` is the whole linear memory.
pub open spec fn is_memory_object(props: Seq<Property>) -> bool {
    &&& props.len() == 1
    &&& props[0].name@ == "buffer"@
    &&& props[0].binding is LinearMemory
}

/// The import object: the capabilities under their exposed names, in table
/// order, then `canonical_abi_realloc` and `memory`.
pub open spec fn is_import_object(props: Seq<Property>) -> bool {
    &&& props.len() == all_spec().len() + 2
    &&& forall|i: int|
        0 <= i < all_spec().len() ==> {
            &&& (#[trigger] props[i]).name@ == hyphenated(identifier_spec(all_spec()[i]))
            &&& props[i].binding == Binding::Capability(all_spec()[i])
        }
    &&& props[10].name@ == "canonical_abi_realloc"@
    &&& props[10].binding is Realloc
    &&& props[11].name@ == "memory"@
    &&& props[11].binding matches Binding::Object(m) && is_memory_object(m@)
}

/// Builds the memory object, whose `buffer` property exposes the whole
/// linear memory, shared by the engine and the library.
pub fn build_memory() -> (r: Vec<Property>)
    ensures
        is_memory_object(r@),
{
    let mut r: Vec<Property> = Vec::new();
    r.push(Property { name: String::from_str("buffer"), binding: Binding::LinearMemory });
    r
}

/// Builds the import object.
pub fn setup_imports() -> (r: Vec<Property>)
    ensures
        is_import_object(r@),
{
    let caps = Capability::all();
    let mut r: Vec<Property> = Vec::new();
    let mut k: usize = 0;
    while k < caps.len()
        invariant
            caps@ == all_spec(),
            k <= caps@.len(),
            r@.len() == k,
            forall|i: int|
                0 <= i < k ==> {
                    &&& (#[trigger] r@[i]).name@ == hyphenated(identifier_spec(all_spec()[i]))
                    &&& r@[i].binding == Binding::Capability(all_spec()[i])
                },
        decreases caps@.len() - k,
    {
        let c = caps[k];
        r.push(Property { name: c.exposed_name(), binding: Binding::Capability(c) });
        k = k + 1;
    }
    r.push(
        Property { name: String::from_str("canonical_abi_realloc"), binding: Binding::Realloc },
    );
    r.push(Property { name: String::from_str("memory"), binding: Binding::Object(build_memory()) });
    r
}

} // verus!
