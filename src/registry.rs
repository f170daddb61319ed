use vstd::prelude::*;
use crate::item::Item;

verus! {

/// Why a registration was refused.
#[derive(Clone, Copy, Debug, PartialEq, Eq, Structural)]
pub enum RegistryError {
    /// An item with the same id is registered already.
    DuplicateKey,
}

/// Item definitions by id, each id at most once.
pub struct ItemRegistry {
    pub items: Vec<Item>,
}

pub open spec fn has_id(items: Seq<Item>, id: Seq<char>) -> bool {
    exists|i: int| 0 <= i < items.len() && (#[trigger] items[i]).id@ == id
}

impl ItemRegistry {
    pub open spec fn wf(self) -> bool {
        forall|i: int, j: int|
            0 <= i < j < self.items@.len() ==> (#[trigger] self.items@[i]).id@ != (#[trigger] self.items@[j]).id@
    }

    pub fn new() -> (r: Self)
        ensures
            r.wf(),
            r.items@.len() == 0,
    {
        ItemRegistry { items: Vec::new() }
    }

    /// Registers `item` under its id; refuses an id registered already.
    pub fn register(&mut self, item: Item) -> (r: Result<(), RegistryError>)
        requires
            old(self).wf(),
        ensures
            final(self).wf(),
            r is Err <==> has_id(old(self).items@, item.id@),
            r is Err ==> final(self).items@ == old(self).items@,
            r is Ok ==> final(self).items@ == old(self).items@.push(item),
    {
        let mut i: usize = 0;
        while i < self.items.len()
            invariant
                i <= self.items@.len(),
                self.items@ == old(self).items@,
                self.wf(),
                forall|j: int| 0 <= j < i ==> (#[trigger] self.items@[j]).id@ != item.id@,
            decreases self.items@.len() - i,
        {
            if self.items[i].id == item.id {
                return Err(RegistryError::DuplicateKey);
            }
            i = i + 1;
        }
        let ghost before = self.items@;
        let ghost it = item;
        self.items.push(item);
        proof {
            assert forall|a: int, b: int| 0 <= a < b < self.items@.len() implies (#[trigger] self.items@[a]).id@ != (#[trigger] self.items@[b]).id@ by {
                if b == before.len() {
                    assert(before[a].id@ != it.id@);
                } else {
                    assert(before[a].id@ != before[b].id@);
                }
            }
        }
        Ok(())
    }
}

/// Registers nothing: a hook for the application's own item definitions.
pub fn register_item() {
}

} // verus!
