use vstd::prelude::*;

verus! {

/// The stored commodity set. Extend by appending.
#[derive(Clone, Copy, PartialEq, Eq, Hash, Debug, Structural)]
pub enum ResourceKind {
    Coal,
    Gravel,
    Goods,
}

/// Transport class: a resource moves only on a vehicle of its class.
#[derive(Clone, Copy, PartialEq, Eq, Hash, Debug, Structural)]
pub enum TransportClass {
    /// Loose bulk on a tipper: ore, coal, gravel.
    Bulk,
    /// Dry boxed goods on a covered bed.
    Covered,
    /// People on a transit vehicle; no resource maps to it.
    Passenger,
    /// Construction machinery; carries no cargo class at all.
    Machine,
}

/// Dense position of a resource in `ResourceKind::ALL`.
pub open spec fn spec_resource_index(kind: ResourceKind) -> int {
    match kind {
        ResourceKind::Coal => 0,
        ResourceKind::Gravel => 1,
        ResourceKind::Goods => 2,
    }
}

/// The class a resource travels in.
pub open spec fn spec_transport_class(kind: ResourceKind) -> TransportClass {
    match kind {
        ResourceKind::Coal | ResourceKind::Gravel => TransportClass::Bulk,
        ResourceKind::Goods => TransportClass::Covered,
    }
}

impl ResourceKind {
    pub const COUNT: usize = 3;

    pub fn all() -> (r: [ResourceKind; 3])
        ensures
            forall|i: int| 0 <= i < 3 ==> spec_resource_index(#[trigger] r@[i]) == i,
    {
        [ResourceKind::Coal, ResourceKind::Gravel, ResourceKind::Goods]
    }

    pub fn index(self) -> (r: usize)
        ensures
            r == spec_resource_index(self),
            r < Self::COUNT,
    {
        match self {
            ResourceKind::Coal => 0,
            ResourceKind::Gravel => 1,
            ResourceKind::Goods => 2,
        }
    }

    pub fn transport_class(self) -> (r: TransportClass)
        ensures
            r == spec_transport_class(self),
    {
        match self {
            ResourceKind::Coal | ResourceKind::Gravel => TransportClass::Bulk,
            ResourceKind::Goods => TransportClass::Covered,
        }
    }
}

} // verus!
