use vstd::prelude::*;
use crate::unit::{str_lt, StoredItemType, StoredItemTypes, UnitKey};

verus! {

/// An NBT compound, held opaquely as the extra data of a unit definition.
#[verifier::external_type_specification]
#[verifier::external_body]
pub struct ExBlob(nbt::Blob);

/// Relies on nbt::Blob::new: it builds an empty compound with an empty name.
pub assume_specification[ nbt::Blob::new ]() -> nbt::Blob;

/// A definition of a discrete item: identified by its id and damage value.
#[derive(Debug)]
pub struct Item {
    pub id: String,
    pub damage: i32,
    pub max_stack_size: i32,
    pub tag: nbt::Blob,
}

impl StoredItemType for Item {
    open spec fn unit_key(&self) -> UnitKey {
        (self.id@, self.damage as int)
    }

    fn stored_type() -> StoredItemTypes {
        StoredItemTypes::Item
    }

    fn precedes(&self, other: &Self) -> (r: bool) {
        if str_lt(self.id.as_str(), other.id.as_str()) {
            true
        } else if self.id == other.id {
            self.damage < other.damage
        } else {
            false
        }
    }

    fn same_unit(&self, other: &Self) -> (r: bool) {
        self.id == other.id && self.damage == other.damage
    }
}

impl Item {
    /// An item with the given id, damage 0, stacks of 64 and an empty tag.
    pub fn new(id: &str) -> (r: Self)
        ensures
            r.id@ == id@,
            r.damage == 0,
            r.max_stack_size == 64,
    {
        Item { id: id.to_owned(), damage: 0, max_stack_size: 64, tag: nbt::Blob::new() }
    }
}

} // verus!
