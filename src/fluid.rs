use vstd::prelude::*;
use crate::unit::{str_lt, StoredItemType, StoredItemTypes, UnitKey};

verus! {

/// A definition of a fluid: identified by its id alone.
#[derive(Debug)]
pub struct Fluid {
    pub id: String,
    pub tag: nbt::Blob,
}

impl StoredItemType for Fluid {
    open spec fn unit_key(&self) -> UnitKey {
        (self.id@, 0)
    }

    fn stored_type() -> StoredItemTypes {
        StoredItemTypes::Fluid
    }

    fn precedes(&self, other: &Self) -> (r: bool) {
        str_lt(self.id.as_str(), other.id.as_str())
    }

    fn same_unit(&self, other: &Self) -> (r: bool) {
        self.id == other.id
    }
}

impl Fluid {
    /// A fluid with the given id and an empty tag.
    pub fn new(id: &str) -> (r: Self)
        ensures
            r.id@ == id@,
    {
        Fluid { id: id.to_owned(), tag: nbt::Blob::new() }
    }
}

} // verus!
