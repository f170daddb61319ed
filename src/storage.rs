use vstd::prelude::*;
use crate::sums::{
    sum_of, lemma_sum_push, lemma_sum_prefix_step, lemma_sum_prefix_bound, lemma_sum_le,
    lemma_sum_scale, lemma_sum_update, lemma_sum_remove, lemma_sum_single, lemma_sum_zero,
    lemma_sum_term_le, lemma_sum_nonneg, lemma_sum_plus_const,
};
use crate::unit::{StoredItemType, UnitKey};

verus! {

/// The number of distinct types every cell type of the catalogue admits.
pub const MAX_TYPES: i32 = 63;

/// Capacities of the catalogue of cell types, in bytes.
pub const CELL_1K_BYTES: i32 = 1024;
pub const CELL_4K_BYTES: i32 = 4096;
pub const CELL_16K_BYTES: i32 = 16384;
pub const CELL_64K_BYTES: i32 = 65536;

/// The largest capacity a cell type may have: eight units per byte must still
/// be counted in an `i32`.
pub const MAX_CELL_BYTES: i32 = 268435455;

/// Rounds a quantity of units up to whole bytes, eight units to a byte.
pub open spec fn ceil8(q: int) -> int {
    (q + 7) / 8
}

/// How many more units fit beside `q` units already held, in their last
/// partly used byte and in `free` further bytes.
pub open spec fn units_slack(q: int, free: int) -> int {
    ceil8(q) * 8 - q + free * 8
}

pub open spec fn min_int(a: int, b: int) -> int {
    if a <= b { a } else { b }
}

/// A cell type: capacity in bytes and the largest number of distinct types.
#[derive(Clone, Copy, Debug, PartialEq, Eq, Structural)]
pub struct StorageCellType(pub i32, pub i32);

impl StorageCellType {
    pub open spec fn capacity(self) -> int {
        self.0 as int
    }

    pub open spec fn max_types(self) -> int {
        self.1 as int
    }

    /// The fixed overhead charged for each distinct type held.
    pub open spec fn bytes_per_type(self) -> int {
        self.0 as int / 128
    }

    pub open spec fn wf(self) -> bool {
        &&& 0 <= self.0 <= MAX_CELL_BYTES
        &&& 0 <= self.1
    }

    pub fn new(capacity: i32) -> (r: Self)
        requires
            0 <= capacity <= MAX_CELL_BYTES,
        ensures
            r.0 == capacity,
            r.1 == MAX_TYPES,
            r.wf(),
    {
        StorageCellType(capacity, MAX_TYPES)
    }

    pub fn get_bytes_per_type(&self) -> (r: i32)
        requires
            self.wf(),
        ensures
            r == self.bytes_per_type(),
            0 <= r <= self.0,
    {
        self.0 / 128
    }
}

/// A quantity of one unit: what is asked for, stored or handed back.
pub struct StoredItem<'a, T: StoredItemType> {
    pub item: &'a T,
    pub count: i32,
}

impl<'a, T: StoredItemType> StoredItem<'a, T> {
    pub open spec fn key(self) -> UnitKey {
        self.item.unit_key()
    }

    pub fn new(item: &'a T, count: i32) -> (r: Self)
        ensures
            r.item == item,
            r.count == count,
    {
        StoredItem { item, count }
    }

    /// Combines two quantities of the same unit; a quantity of another unit
    /// leaves `self` as it is.
    pub fn add(self, rhs: Self) -> (r: Self)
        requires
            self.key() == rhs.key() ==> i32::MIN <= self.count + rhs.count <= i32::MAX,
        ensures
            r.item == self.item,
            r.count == if self.key() == rhs.key() {
                self.count + rhs.count
            } else {
                self.count as int
            },
    {
        if self.item.same_unit(rhs.item) {
            StoredItem { item: self.item, count: self.count + rhs.count }
        } else {
            self
        }
    }
}

impl<'a, T: StoredItemType> Clone for StoredItem<'a, T> {
    fn clone(&self) -> (r: Self)
        ensures
            r == *self,
    {
        StoredItem { item: self.item, count: self.count }
    }
}

/// Bytes one entry costs: the overhead of its type and its packed units.
pub open spec fn entry_bytes<'a, T: StoredItemType>(bpt: int) -> spec_fn(StoredItem<'a, T>) -> int {
    |e: StoredItem<'a, T>| bpt + ceil8(e.count as int)
}

/// Bytes the units of an entry take, eight to a byte.
pub open spec fn entry_packed<'a, T: StoredItemType>() -> spec_fn(StoredItem<'a, T>) -> int {
    |e: StoredItem<'a, T>| ceil8(e.count as int)
}

pub open spec fn entry_count<'a, T: StoredItemType>() -> spec_fn(StoredItem<'a, T>) -> int {
    |e: StoredItem<'a, T>| e.count as int
}

/// The quantity an entry holds of the unit `k`.
pub open spec fn entry_qty<'a, T: StoredItemType>(k: UnitKey) -> spec_fn(StoredItem<'a, T>) -> int {
    |e: StoredItem<'a, T>| if e.key() == k { e.count as int } else { 0 }
}

/// The quantity of `k` over a list of entries.
pub open spec fn qty_in<'a, T: StoredItemType>(s: Seq<StoredItem<'a, T>>, k: UnitKey) -> int {
    sum_of(s, entry_qty(k))
}

pub open spec fn has_key<'a, T: StoredItemType>(s: Seq<StoredItem<'a, T>>, k: UnitKey) -> bool {
    exists|i: int| 0 <= i < s.len() && #[trigger] s[i].key() == k
}

pub open spec fn unique_keys<'a, T: StoredItemType>(s: Seq<StoredItem<'a, T>>) -> bool {
    forall|i: int, j: int| 0 <= i < j < s.len() ==> #[trigger] s[i].key() != #[trigger] s[j].key()
}

pub open spec fn positive_counts<'a, T: StoredItemType>(s: Seq<StoredItem<'a, T>>) -> bool {
    forall|i: int| 0 <= i < s.len() ==> #[trigger] s[i].count > 0
}

/// The quantity of `k` in a list of distinct entries is that of its entry, if any.
pub proof fn lemma_qty_unique<'a, T: StoredItemType>(s: Seq<StoredItem<'a, T>>, k: UnitKey)
    requires
        unique_keys(s),
    ensures
        forall|i: int| 0 <= i < s.len() && #[trigger] s[i].key() == k ==> qty_in(s, k) == s[i].count,
        !has_key(s, k) ==> qty_in(s, k) == 0,
{
    assert forall|i: int| 0 <= i < s.len() && #[trigger] s[i].key() == k implies qty_in(s, k)
        == s[i].count by {
        assert forall|j: int| 0 <= j < s.len() && j != i implies (#[trigger] entry_qty::<T>(k)(
            s[j],
        )) == 0 by {
            if j < i {
                assert(s[j].key() != s[i].key());
            } else {
                assert(s[i].key() != s[j].key());
            }
        }
        lemma_sum_single(s, i, entry_qty(k));
    }
    if !has_key(s, k) {
        assert forall|j: int| 0 <= j < s.len() implies (#[trigger] entry_qty::<T>(k)(s[j])) == 0 by {
            assert(s[j].key() != k);
        }
        lemma_sum_zero(s, entry_qty(k));
    }
}

/// Units never outnumber eight times the bytes charged for them.
pub proof fn lemma_count_le_bytes<'a, T: StoredItemType>(s: Seq<StoredItem<'a, T>>, bpt: int)
    requires
        bpt >= 0,
        forall|i: int| 0 <= i < s.len() ==> #[trigger] s[i].count >= 0,
    ensures
        0 <= sum_of(s, entry_count()) <= 8 * sum_of(s, entry_bytes(bpt)),
{
    let g = |e: StoredItem<'a, T>| 8 * (bpt + ceil8(e.count as int));
    assert forall|i: int| 0 <= i < s.len() implies (#[trigger] entry_count::<T>()(s[i])) <= g(
        s[i],
    ) by {
        let c = s[i].count as int;
        assert(8 * ((c + 7) / 8) >= c);
    }
    lemma_sum_le(s, entry_count(), g);
    lemma_sum_scale(s, entry_bytes(bpt), g, 8);
    lemma_sum_nonneg(s, entry_count());
}


/// The quantity of `k` placed (or taken) by a batch: the amounts of the
/// requests for `k`, one amount per request, in order.
pub open spec fn placed_qty<'a, T: StoredItemType>(
    items: Seq<StoredItem<'a, T>>,
    amounts: Seq<i32>,
    k: UnitKey,
) -> int
    decreases items.len(),
{
    if items.len() == 0 || amounts.len() == 0 {
        0
    } else {
        placed_qty(items.drop_last(), amounts.drop_last(), k) + if items.last().key() == k {
            amounts.last() as int
        } else {
            0
        }
    }
}

pub proof fn lemma_placed_step<'a, T: StoredItemType>(
    items: Seq<StoredItem<'a, T>>,
    amounts: Seq<i32>,
    i: int,
    x: i32,
)
    requires
        0 <= i < items.len(),
        amounts.len() == i,
    ensures
        forall|k: UnitKey| #[trigger] placed_qty(items.take(i + 1), amounts.push(x), k)
            == placed_qty(items.take(i), amounts, k) + if items[i].key() == k {
            x as int
        } else {
            0
        },
{
    assert(items.take(i + 1).drop_last() =~= items.take(i));
    assert(amounts.push(x).drop_last() =~= amounts);
}

/// Adding `r` units to an entry of `q` within its slack costs at most the free bytes.
pub proof fn lemma_ceil8_grow(q: int, r: int, free: int)
    requires
        q >= 0,
        r >= 0,
        free >= 0,
        r <= units_slack(q, free),
    ensures
        ceil8(q + r) <= ceil8(q) + free,
        q <= 8 * ceil8(q),
{
}

/// Units within `8 * b` bytes take at most `b` bytes.
pub proof fn lemma_ceil8_le(r: int, b: int)
    requires
        0 <= r <= 8 * b,
    ensures
        ceil8(r) <= b,
        r > 0 ==> ceil8(r) >= 1,
{
}

/// Dropping an entry keeps the entries distinct and positive.
pub proof fn lemma_remove_entry<'a, T: StoredItemType>(s: Seq<StoredItem<'a, T>>, i: int)
    requires
        0 <= i < s.len(),
        unique_keys(s),
        positive_counts(s),
    ensures
        unique_keys(s.remove(i)),
        positive_counts(s.remove(i)),
        forall|k: UnitKey| #[trigger] has_key(s.remove(i), k) == (has_key(s, k) && k != s[i].key()),
{
    let t = s.remove(i);
    assert forall|a: int, b: int| 0 <= a < b < t.len() implies #[trigger] t[a].key() != #[trigger] t[b].key() by {
        let a0 = if a < i { a } else { a + 1 };
        let b0 = if b < i { b } else { b + 1 };
        assert(t[a] == s[a0] && t[b] == s[b0]);
    }
    assert forall|a: int| 0 <= a < t.len() implies #[trigger] t[a].count > 0 by {
        let a0 = if a < i { a } else { a + 1 };
        assert(t[a] == s[a0]);
    }
    assert forall|k: UnitKey| #[trigger] has_key(t, k) == (has_key(s, k) && k != s[i].key()) by {
        if has_key(t, k) {
            let a = choose|a: int| 0 <= a < t.len() && #[trigger] t[a].key() == k;
            let a0 = if a < i { a } else { a + 1 };
            assert(t[a] == s[a0]);
            if a0 < i {
                assert(s[a0].key() != s[i].key());
            } else {
                assert(s[i].key() != s[a0].key());
            }
        }
        if has_key(s, k) && k != s[i].key() {
            let a0 = choose|a: int| 0 <= a < s.len() && #[trigger] s[a].key() == k;
            let a = if a0 < i { a0 } else { a0 - 1 };
            assert(t[a] == s[a0]);
        }
    }
}

/// The position of the entry for `item`'s unit in `v`, if there is one.
pub fn find_entry<'a, T: StoredItemType>(v: &Vec<StoredItem<'a, T>>, item: &T) -> (r: Option<usize>)
    ensures
        match r {
            Some(i) => i < v@.len() && v@[i as int].key() == item.unit_key() && forall|m: int|
                0 <= m < i ==> #[trigger] v@[m].key() != item.unit_key(),
            None => !has_key(v@, item.unit_key()),
        },
{
    let mut i: usize = 0;
    while i < v.len()
        invariant
            i <= v@.len(),
            forall|j: int| 0 <= j < i ==> #[trigger] v@[j].key() != item.unit_key(),
        decreases v@.len() - i,
    {
        if v[i].item.same_unit(item) {
            return Some(i);
        }
        i = i + 1;
    }
    None
}

/// How many units of `k` a cell of type `ct` holding `es` accepts when `c` are offered.
pub open spec fn room_in<'a, T: StoredItemType>(
    es: Seq<StoredItem<'a, T>>,
    ct: StorageCellType,
    k: UnitKey,
    c: int,
) -> int {
    let bpt = ct.bytes_per_type();
    let used = sum_of(es, entry_bytes(bpt));
    if c <= 0 || used == ct.capacity() {
        0
    } else if has_key(es, k) {
        min_int(c, units_slack(qty_in(es, k), ct.capacity() - used))
    } else if es.len() >= ct.max_types() || used + bpt + 1 > ct.capacity() {
        0
    } else {
        min_int(c, (ct.capacity() - used - bpt) * 8)
    }
}

/// The entries after `r` units of `e`'s unit were added to `es`: the entry
/// of that unit grows, or a new entry is appended.
pub open spec fn inserted<'a, T: StoredItemType>(
    es: Seq<StoredItem<'a, T>>,
    e: StoredItem<'a, T>,
    r: int,
) -> Seq<StoredItem<'a, T>> {
    if r <= 0 {
        es
    } else if has_key(es, e.key()) {
        let i = choose|i: int| 0 <= i < es.len() && #[trigger] es[i].key() == e.key();
        es.update(i, StoredItem { item: es[i].item, count: (es[i].count + r) as i32 })
    } else {
        es.push(StoredItem { item: e.item, count: r as i32 })
    }
}

/// The entries after offering each item of `items` in turn.
pub open spec fn batch_entries<'a, T: StoredItemType>(
    es: Seq<StoredItem<'a, T>>,
    ct: StorageCellType,
    items: Seq<StoredItem<'a, T>>,
) -> Seq<StoredItem<'a, T>>
    decreases items.len(),
{
    if items.len() == 0 {
        es
    } else {
        let prev = batch_entries(es, ct, items.drop_last());
        inserted(prev, items.last(), room_in(prev, ct, items.last().key(), items.last().count as int))
    }
}

/// The configuration of a cell within a grid.
#[derive(Clone, Copy, Debug, PartialEq, Eq, Structural)]
pub struct StorageCellConfig {
    pub priority: i32,
}

impl Default for StorageCellConfig {
    fn default() -> (r: Self)
        ensures
            r.priority == 0,
    {
        StorageCellConfig { priority: 0 }
    }
}

/// One storage container: a byte budget, a limit of distinct types, and what it holds.
pub struct StorageCell<'a, T: StoredItemType> {
    pub config: StorageCellConfig,
    pub stored_types: i32,
    pub bytes_used: i32,
    pub stored_items: Vec<StoredItem<'a, T>>,
    pub stored_items_count: i32,
    pub cell_type: StorageCellType,
}


impl<'a, T: StoredItemType> StorageCell<'a, T> {
    pub open spec fn entries(self) -> Seq<StoredItem<'a, T>> {
        self.stored_items@
    }

    /// The quantity of `k` this cell holds.
    pub open spec fn qty(self, k: UnitKey) -> int {
        qty_in(self.entries(), k)
    }

    pub open spec fn holds(self, k: UnitKey) -> bool {
        has_key(self.entries(), k)
    }

    pub open spec fn capacity(self) -> int {
        self.cell_type.capacity()
    }

    pub open spec fn free_bytes(self) -> int {
        self.capacity() - self.bytes_used
    }

    pub open spec fn is_saturated(self) -> bool {
        self.bytes_used == self.capacity()
    }

    /// What the entries must satisfy for the derived fields to be recomputed.
    pub open spec fn entries_ok(self) -> bool {
        &&& self.cell_type.wf()
        &&& unique_keys(self.entries())
        &&& positive_counts(self.entries())
        &&& self.entries().len() <= self.cell_type.max_types()
        &&& sum_of(self.entries(), entry_bytes(self.cell_type.bytes_per_type()))
            <= self.capacity()
    }

    /// The cell's invariant: distinct positive entries within both limits,
    /// and derived fields that agree with them.
    pub open spec fn wf(self) -> bool {
        &&& self.entries_ok()
        &&& self.stored_types == self.entries().len()
        &&& self.bytes_used == sum_of(
            self.entries(),
            entry_bytes(self.cell_type.bytes_per_type()),
        )
        &&& self.stored_items_count == sum_of(self.entries(), entry_count())
        &&& 0 <= self.bytes_used
        &&& 0 <= self.stored_items_count <= 8 * self.capacity()
    }

    /// Every unit that `self` accepts no more of, `other` accepts no more of either.
    pub open spec fn stays_closed(self, other: Self) -> bool {
        forall|k: UnitKey| self.room(k, 1) == 0 ==> #[trigger] other.room(k, 1) == 0
    }

    /// How many units of `k` the cell accepts when `c` are offered.
    pub open spec fn room(self, k: UnitKey, c: int) -> int {
        if c <= 0 || self.is_saturated() {
            0
        } else if self.holds(k) {
            min_int(c, units_slack(self.qty(k), self.free_bytes()))
        } else if self.stored_types >= self.cell_type.max_types() || self.bytes_used
            + self.cell_type.bytes_per_type() + 1 > self.capacity() {
            0
        } else {
            min_int(c, (self.free_bytes() - self.cell_type.bytes_per_type()) * 8)
        }
    }

    /// The bytes a list of entries costs in a cell of type `cell_type`.
    pub fn calc_stored_bytes(cell_type: &StorageCellType, stored_items: &Vec<StoredItem<'a, T>>) -> (r: i32)
        requires
            cell_type.wf(),
            forall|i: int| 0 <= i < stored_items@.len() ==> #[trigger] stored_items@[i].count >= 0,
            sum_of(stored_items@, entry_bytes(cell_type.bytes_per_type())) <= i32::MAX,
        ensures
            r == sum_of(stored_items@, entry_bytes(cell_type.bytes_per_type())),
    {
        let bytes_per_type = cell_type.get_bytes_per_type();
        let ghost s = stored_items@;
        let ghost f = entry_bytes::<T>(cell_type.bytes_per_type());
        let mut bytes: i32 = 0;
        let mut i: usize = 0;
        while i < stored_items.len()
            invariant
                i <= s.len(),
                s == stored_items@,
                bytes_per_type == cell_type.bytes_per_type(),
                bytes_per_type >= 0,
                f == entry_bytes::<T>(cell_type.bytes_per_type()),
                forall|j: int| 0 <= j < s.len() ==> #[trigger] s[j].count >= 0,
                sum_of(s, f) <= i32::MAX,
                bytes == sum_of(s.take(i as int), f),
            decreases s.len() - i,
        {
            proof {
                lemma_sum_prefix_step(s, i as int, f);
                assert forall|j: int| 0 <= j < s.len() implies f(#[trigger] s[j]) >= 0 by {
                    assert(s[j].count >= 0);
                }
                lemma_sum_prefix_bound(s, i as int + 1, f);
            }
            let c = stored_items[i].count;
            bytes = bytes + bytes_per_type + Self::bytes_for_units(c);
            i = i + 1;
        }
        proof {
            assert(s.take(s.len() as int) =~= s);
        }
        bytes
    }

    /// Whole bytes that `count` units take, eight to a byte.
    fn bytes_for_units(count: i32) -> (r: i32)
        requires
            count >= 0,
        ensures
            r == ceil8(count as int),
    {
        count / 8 + if count % 8 != 0 { 1i32 } else { 0i32 }
    }

    /// The units held over a list of entries.
    fn calc_stored_count(stored_items: &Vec<StoredItem<'a, T>>) -> (r: i32)
        requires
            forall|i: int| 0 <= i < stored_items@.len() ==> #[trigger] stored_items@[i].count >= 0,
            sum_of(stored_items@, entry_count()) <= i32::MAX,
        ensures
            r == sum_of(stored_items@, entry_count()),
    {
        let ghost s = stored_items@;
        let ghost f = entry_count::<T>();
        let mut total: i32 = 0;
        let mut i: usize = 0;
        while i < stored_items.len()
            invariant
                i <= s.len(),
                s == stored_items@,
                f == entry_count::<T>(),
                forall|j: int| 0 <= j < s.len() ==> #[trigger] s[j].count >= 0,
                sum_of(s, f) <= i32::MAX,
                total == sum_of(s.take(i as int), f),
            decreases s.len() - i,
        {
            proof {
                lemma_sum_prefix_step(s, i as int, f);
                assert forall|j: int| 0 <= j < s.len() implies f(#[trigger] s[j]) >= 0 by {
                    assert(s[j].count >= 0);
                }
                lemma_sum_prefix_bound(s, i as int + 1, f);
            }
            total = total + stored_items[i].count;
            i = i + 1;
        }
        proof {
            assert(s.take(s.len() as int) =~= s);
        }
        total
    }

    /// Units that still fit beside `stored_item.count` units already held,
    /// given `free_bytes` free bytes.
    pub fn calc_free_space(stored_item: &StoredItem<T>, free_bytes: i32) -> (r: i32)
        requires
            stored_item.count >= 0,
            i32::MIN <= free_bytes * 8,
            free_bytes * 8 + 7 <= i32::MAX,
        ensures
            r == units_slack(stored_item.count as int, free_bytes as int),
    {
        let q = stored_item.count as i64;
        let occupied = Self::bytes_for_units(stored_item.count) as i64;
        assert(0 <= occupied * 8 - q <= 7);
        ((occupied * 8 - q) + free_bytes as i64 * 8) as i32
    }

    /// An empty cell of the given type.
    pub fn new(cell_type: &StorageCellType) -> (r: Self)
        requires
            cell_type.wf(),
        ensures
            r.wf(),
            r.cell_type == *cell_type,
            r.config.priority == 0,
            r.entries().len() == 0,
            forall|k: UnitKey| #[trigger] r.qty(k) == 0,
    {
        let r = StorageCell {
            config: StorageCellConfig::default(),
            stored_types: 0,
            bytes_used: 0,
            stored_items: Vec::new(),
            stored_items_count: 0,
            cell_type: *cell_type,
        };
        proof {
            assert forall|k: UnitKey| #[trigger] r.qty(k) == 0 by {
                lemma_qty_unique(r.entries(), k);
            }
        }
        r
    }

    pub fn get_free_bytes(&self) -> (r: i32)
        requires
            self.wf(),
        ensures
            r == self.free_bytes(),
            0 <= r <= self.capacity(),
    {
        self.cell_type.0 - self.bytes_used
    }

    /// Whether the whole byte budget is in use.
    pub fn is_full(&self) -> (r: bool)
        ensures
            r == self.is_saturated(),
    {
        self.bytes_used == self.cell_type.0
    }

    /// How many units of `item` the cell accepts now.
    fn get_free_space(&self, item: &StoredItem<T>) -> (r: i32)
        requires
            self.wf(),
        ensures
            r == self.room(item.key(), item.count as int),
            0 <= r,
    {
        let ghost k = item.key();
        if item.count <= 0 || self.bytes_used == self.cell_type.0 {
            return 0;
        }
        let bytes_per_type = self.cell_type.get_bytes_per_type();
        let free = self.get_free_bytes();
        match find_entry(&self.stored_items, item.item) {
            Some(i) => {
                let stored = &self.stored_items[i];
                proof {
                    lemma_qty_unique(self.entries(), k);
                    assert(self.holds(k));
                }
                let slack = Self::calc_free_space(stored, free);
                if item.count <= slack { item.count } else { slack }
            },
            None => {
                if self.bytes_used + bytes_per_type + 1 > self.cell_type.0 || self.stored_types
                    >= self.cell_type.1 {
                    return 0;
                }
                let empty = StoredItem { item: item.item, count: 0 };
                let slack = Self::calc_free_space(&empty, free - bytes_per_type);
                if item.count <= slack { item.count } else { slack }
            },
        }
    }

    /// Recomputes the derived fields from the entries.
    pub fn refresh_cache(&mut self)
        requires
            old(self).entries_ok(),
        ensures
            final(self).wf(),
            final(self).stored_items == old(self).stored_items,
            final(self).config == old(self).config,
            final(self).cell_type == old(self).cell_type,
    {
        let ghost bpt = self.cell_type.bytes_per_type();
        proof {
            assert forall|i: int| 0 <= i < self.entries().len() implies #[trigger] self.entries()[i].count >= 0 by {
                assert(self.entries()[i].count > 0);
            }
            lemma_count_le_bytes(self.entries(), bpt);
            assert forall|i: int| 0 <= i < self.entries().len() implies (#[trigger] entry_bytes::<T>(bpt)(self.entries()[i])) >= 0 by {
                assert(self.entries()[i].count > 0);
            }
            lemma_sum_nonneg(self.entries(), entry_bytes::<T>(bpt));
        }
        self.stored_types = self.stored_items.len() as i32;
        self.bytes_used = Self::calc_stored_bytes(&self.cell_type, &self.stored_items);
        self.stored_items_count = Self::calc_stored_count(&self.stored_items);
    }

    /// A well-formed cell holds a non-negative quantity of each unit, positive
    /// exactly for the units it holds, and never more than its capacity in units.
    pub proof fn lemma_qty_bounds(self, k: UnitKey)
        requires
            self.wf(),
        ensures
            0 <= self.qty(k) <= 8 * self.capacity(),
            self.qty(k) > 0 <==> self.holds(k),
    {
        let s = self.entries();
        lemma_qty_unique(s, k);
        assert forall|j: int| 0 <= j < s.len() implies (#[trigger] entry_qty::<T>(k)(s[j])) <= entry_count::<T>()(s[j]) && entry_qty::<T>(k)(s[j]) >= 0 by {
            assert(s[j].count > 0);
        }
        lemma_sum_le(s, entry_qty::<T>(k), entry_count::<T>());
        lemma_sum_nonneg(s, entry_qty::<T>(k));
        if self.holds(k) {
            let i = choose|i: int| 0 <= i < s.len() && #[trigger] s[i].key() == k;
            assert(s[i].count > 0);
        }
    }

    /// The byte accounting of a cell: one overhead per distinct type held
    /// plus the packed units of every entry, within the byte budget, with
    /// the number of types within its limit.
    pub proof fn lemma_cell_accounting(self)
        requires
            self.wf(),
        ensures
            self.bytes_used == self.cell_type.bytes_per_type() * self.stored_types + sum_of(
                self.entries(),
                entry_packed(),
            ),
            self.bytes_used <= self.capacity(),
            self.stored_types <= self.cell_type.max_types(),
            self.stored_types == self.entries().len(),
    {
        let bpt = self.cell_type.bytes_per_type();
        lemma_sum_plus_const(self.entries(), entry_bytes::<T>(bpt), entry_packed::<T>(), bpt);
    }

    /// Offers `item.count` units of `item`'s unit; stores what fits and
    /// returns how many units were added.
    pub fn insert(&mut self, item: StoredItem<'a, T>) -> (r: i32)
        requires
            old(self).wf(),
        ensures
            final(self).wf(),
            r == old(self).room(item.key(), item.count as int),
            0 <= r,
            item.count >= 0 ==> r <= item.count,
            forall|k: UnitKey| #[trigger] final(self).qty(k) == old(self).qty(k) + if k == item.key() {
                r as int
            } else {
                0
            },
            forall|k: UnitKey| #[trigger] final(self).holds(k) == (old(self).holds(k) || (k
                == item.key() && r > 0)),
            final(self).config == old(self).config,
            final(self).cell_type == old(self).cell_type,
            r == 0 ==> *final(self) == *old(self),
            0 < item.count && r < item.count ==> final(self).room(item.key(), 1) == 0,
            old(self).stays_closed(*final(self)),
            r == room_in(old(self).entries(), old(self).cell_type, item.key(), item.count as int),
            final(self).entries() == inserted(old(self).entries(), item, r as int),
    {
        if self.bytes_used == self.cell_type.0 {
            return 0;
        }
        proof {
            self.lemma_qty_bounds(item.key());
        }
        let count = self.get_free_space(&item);
        if count > 0 {
            let ghost s = self.entries();
            let ghost k = item.key();
            let ghost bpt = self.cell_type.bytes_per_type();
            proof {
                lemma_qty_unique(s, k);
            }
            match find_entry(&self.stored_items, item.item) {
                Some(i) => {
                    let q = self.stored_items[i].count;
                    proof {
                        assert(self.holds(k));
                        lemma_ceil8_grow(q as int, count as int, self.free_bytes());
                        assert forall|j: int| 0 <= j < s.len() implies (#[trigger] entry_bytes::<T>(bpt)(s[j])) >= 0 by {
                            assert(s[j].count > 0);
                        }
                        lemma_sum_term_le(s, i as int, entry_bytes::<T>(bpt));
                    }
                    self.stored_items[i].count = q + count;
                    proof {
                        let jj = choose|j: int| 0 <= j < s.len() && #[trigger] s[j].key() == item.key();
                        if jj != i {
                            if jj < i {
                                assert(s[jj].key() != s[i as int].key());
                            } else {
                                assert(s[i as int].key() != s[jj].key());
                            }
                        }
                        if count < item.count {
                            assert(count as int == units_slack(q as int, old(self).free_bytes()));
                            assert(ceil8(q + count) == ceil8(q as int) + old(self).free_bytes());
                        }
                        let e = StoredItem { item: s[i as int].item, count: (q + count) as i32 };
                        assert(self.entries() =~= s.update(i as int, e));
                        lemma_sum_update(s, i as int, e, entry_bytes::<T>(bpt));
                        assert forall|k2: UnitKey| #[trigger] qty_in(self.entries(), k2) == qty_in(s, k2) + if k2 == k { count as int } else { 0 } by {
                            lemma_sum_update(s, i as int, e, entry_qty::<T>(k2));
                        }
                        assert forall|k2: UnitKey| #[trigger] has_key(self.entries(), k2) == has_key(s, k2) by {
                            if has_key(s, k2) {
                                let j = choose|j: int| 0 <= j < s.len() && #[trigger] s[j].key() == k2;
                                assert(self.entries()[j].key() == k2);
                            }
                            if has_key(self.entries(), k2) {
                                let j = choose|j: int| 0 <= j < s.len() && #[trigger] self.entries()[j].key() == k2;
                                assert(s[j].key() == k2);
                            }
                        }
                        assert(unique_keys(self.entries()));
                    }
                },
                None => {
                    let e = StoredItem { item: item.item, count };
                    self.stored_items.push(e);
                    proof {
                        if count < item.count {
                            assert(ceil8(count as int) == old(self).free_bytes() - bpt);
                        }
                        assert(self.entries() =~= s.push(e));
                        lemma_ceil8_le(count as int, old(self).free_bytes() - bpt);
                        lemma_sum_push(s, e, entry_bytes::<T>(bpt));
                        assert forall|k2: UnitKey| #[trigger] qty_in(self.entries(), k2) == qty_in(s, k2) + if k2 == k { count as int } else { 0 } by {
                            lemma_sum_push(s, e, entry_qty::<T>(k2));
                        }
                        assert forall|k2: UnitKey| #[trigger] has_key(self.entries(), k2) == (has_key(s, k2) || k2 == k) by {
                            if has_key(s, k2) {
                                let j = choose|j: int| 0 <= j < s.len() && #[trigger] s[j].key() == k2;
                                assert(self.entries()[j].key() == k2);
                            }
                            if k2 == k {
                                assert(self.entries()[s.len() as int].key() == k2);
                            }
                            if has_key(self.entries(), k2) && k2 != k {
                                let j = choose|j: int| 0 <= j < self.entries().len() && #[trigger] self.entries()[j].key() == k2;
                                assert(j < s.len());
                                assert(s[j].key() == k2);
                            }
                        }
                        assert forall|a: int, b: int| 0 <= a < b < self.entries().len() implies #[trigger] self.entries()[a].key() != #[trigger] self.entries()[b].key() by {
                            if b == s.len() {
                                assert(s[a].key() != k);
                            } else {
                                assert(s[a].key() != s[b].key());
                            }
                        }
                    }
                },
            }
            self.refresh_cache();
            proof {
                assert(self.stored_types >= old(self).stored_types);
                assert(self.bytes_used >= old(self).bytes_used);
                assert forall|k2: UnitKey| old(self).room(k2, 1) == 0 implies #[trigger] self.room(k2, 1) == 0 by {
                    old(self).lemma_qty_bounds(k2);
                    if old(self).holds(k2) {
                        assert(units_slack(old(self).qty(k2), old(self).free_bytes()) >= 8);
                    }
                    assert(k2 != k);
                }
            }
        } else {
            proof {
                assert forall|k2: UnitKey| #[trigger] self.qty(k2) == old(self).qty(k2) by {}
                let k = item.key();
                if self.holds(k) {
                    assert(units_slack(self.qty(k), self.free_bytes()) >= 0);
                }
            }
        }
        count
    }

    /// Offers each item in turn; an item of a type the cell does not hold is
    /// skipped once the type limit is reached. Returns the units added per item.
    pub fn insert_many(&mut self, items: &Vec<StoredItem<'a, T>>) -> (r: Vec<i32>)
        requires
            old(self).wf(),
        ensures
            final(self).wf(),
            r@.len() == items@.len(),
            forall|i: int| 0 <= i < r@.len() ==> 0 <= #[trigger] r@[i] && (items@[i].count >= 0
                ==> r@[i] <= items@[i].count),
            forall|k: UnitKey| #[trigger] final(self).qty(k) == old(self).qty(k) + placed_qty(
                items@,
                r@,
                k,
            ),
            forall|i: int| 0 <= i < r@.len() && 0 < items@[i].count && #[trigger] r@[i] < items@[i].count
                ==> final(self).room(items@[i].key(), 1) == 0,
            forall|i: int| 0 <= i < r@.len() ==> #[trigger] r@[i] == room_in(
                batch_entries(old(self).entries(), old(self).cell_type, items@.take(i)),
                old(self).cell_type,
                items@[i].key(),
                items@[i].count as int,
            ),
            final(self).entries() == batch_entries(old(self).entries(), old(self).cell_type, items@),
            final(self).config == old(self).config,
            final(self).cell_type == old(self).cell_type,
    {
        let mut out: Vec<i32> = Vec::new();
        let mut i: usize = 0;
        while i < items.len()
            invariant
                i <= items@.len(),
                self.wf(),
                out@.len() == i,
                forall|j: int| 0 <= j < i ==> 0 <= #[trigger] out@[j] && (items@[j].count >= 0
                    ==> out@[j] <= items@[j].count),
                forall|k: UnitKey| #[trigger] self.qty(k) == old(self).qty(k) + placed_qty(
                    items@.take(i as int),
                    out@,
                    k,
                ),
                forall|j: int| 0 <= j < i && 0 < items@[j].count && #[trigger] out@[j] < items@[j].count
                    ==> self.room(items@[j].key(), 1) == 0,
                forall|j: int| 0 <= j < i ==> #[trigger] out@[j] == room_in(
                    batch_entries(old(self).entries(), old(self).cell_type, items@.take(j)),
                    old(self).cell_type,
                    items@[j].key(),
                    items@[j].count as int,
                ),
                self.entries() == batch_entries(old(self).entries(), old(self).cell_type, items@.take(i as int)),
                self.config == old(self).config,
                self.cell_type == old(self).cell_type,
            decreases items@.len() - i,
        {
            let it = StoredItem { item: items[i].item, count: items[i].count };
            let ghost prev = out@;
            let ghost before = *self;
            let added = if find_entry(&self.stored_items, it.item).is_some() || self.stored_types < self.cell_type.1 {
                self.insert(it)
            } else {
                0
            };
            out.push(added);
            proof {
                lemma_placed_step(items@, prev, i as int, added);
                assert(items@.take(i + 1).drop_last() =~= items@.take(i as int));
                assert(items@.take(i + 1).last() == items@[i as int]);
                assert(it.key() == items@[i as int].key());
                assert(added == room_in(before.entries(), before.cell_type, it.key(), it.count as int));
                assert forall|j: int| 0 <= j <= i && 0 < items@[j].count && #[trigger] out@[j] < items@[j].count
                    implies self.room(items@[j].key(), 1) == 0 by {
                    if j < i {
                        assert(prev[j] == out@[j]);
                        assert(before.room(items@[j].key(), 1) == 0);
                    }
                }
            }
            i = i + 1;
        }
        proof {
            assert(items@.take(items@.len() as int) =~= items@);
        }
        out
    }

    /// Withdraws up to `item.count` units of `item`'s unit and returns how
    /// many were taken; an entry that reaches zero is removed.
    pub fn take(&mut self, item: &StoredItem<'a, T>) -> (r: i32)
        requires
            old(self).wf(),
        ensures
            final(self).wf(),
            r == if item.count <= 0 {
                0
            } else {
                min_int(old(self).qty(item.key()), item.count as int)
            },
            0 <= r,
            item.count >= 0 ==> r <= item.count,
            forall|k: UnitKey| #[trigger] final(self).qty(k) == old(self).qty(k) - if k == item.key() {
                r as int
            } else {
                0
            },
            forall|k: UnitKey| #[trigger] final(self).holds(k) == (old(self).holds(k) && (k
                != item.key() || old(self).qty(k) > r)),
            final(self).config == old(self).config,
            final(self).cell_type == old(self).cell_type,
            r == 0 ==> *final(self) == *old(self),
            old(self).holds(item.key()) && item.count >= old(self).qty(item.key()) ==> !final(self).holds(item.key())
                && final(self).stored_types == old(self).stored_types - 1
                && final(self).bytes_used == old(self).bytes_used - old(self).cell_type.bytes_per_type() - ceil8(r as int),
    {
        let ghost s = self.entries();
        let ghost k = item.key();
        let ghost bpt = self.cell_type.bytes_per_type();
        proof {
            lemma_qty_unique(s, k);
            assert forall|k2: UnitKey| #[trigger] self.qty(k2) > 0 implies self.holds(k2) by {
                lemma_qty_unique(s, k2);
            }
        }
        if item.count <= 0 {
            return 0;
        }
        match find_entry(&self.stored_items, item.item) {
            None => 0,
            Some(i) => {
                let q = self.stored_items[i].count;
                let count = if q <= item.count { q } else { item.count };
                if count == q {
                    self.stored_items.remove(i);
                    proof {
                        lemma_remove_entry(s, i as int);
                        lemma_sum_remove(s, i as int, entry_bytes::<T>(bpt));
                        assert forall|k2: UnitKey| #[trigger] qty_in(self.entries(), k2) == qty_in(s, k2) - if k2 == k { count as int } else { 0 } by {
                            lemma_sum_remove(s, i as int, entry_qty::<T>(k2));
                        }
                        assert forall|j: int| 0 <= j < self.entries().len() implies (#[trigger] entry_bytes::<T>(bpt)(self.entries()[j])) >= 0 by {
                            assert(self.entries()[j].count > 0);
                        }
                        lemma_sum_nonneg(self.entries(), entry_bytes::<T>(bpt));
                    }
                } else {
                    self.stored_items[i].count = q - count;
                    proof {
                        let e = StoredItem { item: s[i as int].item, count: (q - count) as i32 };
                        assert(self.entries() =~= s.update(i as int, e));
                        assert(ceil8((q - count) as int) <= ceil8(q as int));
                        lemma_sum_update(s, i as int, e, entry_bytes::<T>(bpt));
                        assert forall|k2: UnitKey| #[trigger] qty_in(self.entries(), k2) == qty_in(s, k2) - if k2 == k { count as int } else { 0 } by {
                            lemma_sum_update(s, i as int, e, entry_qty::<T>(k2));
                        }
                        assert forall|k2: UnitKey| #[trigger] has_key(self.entries(), k2) == has_key(s, k2) by {
                            if has_key(s, k2) {
                                let j = choose|j: int| 0 <= j < s.len() && #[trigger] s[j].key() == k2;
                                assert(self.entries()[j].key() == k2);
                            }
                            if has_key(self.entries(), k2) {
                                let j = choose|j: int| 0 <= j < s.len() && #[trigger] self.entries()[j].key() == k2;
                                assert(s[j].key() == k2);
                            }
                        }
                        assert(unique_keys(self.entries()));
                    }
                }
                self.refresh_cache();
                count
            },
        }
    }

    /// Withdraws for each request in turn, each on its own; returns the
    /// units taken per request.
    pub fn take_many(&mut self, items: &Vec<StoredItem<'a, T>>) -> (r: Vec<i32>)
        requires
            old(self).wf(),
        ensures
            final(self).wf(),
            r@.len() == items@.len(),
            forall|i: int| 0 <= i < r@.len() ==> 0 <= #[trigger] r@[i] && (items@[i].count >= 0
                ==> r@[i] <= items@[i].count),
            forall|k: UnitKey| #[trigger] final(self).qty(k) == old(self).qty(k) - placed_qty(
                items@,
                r@,
                k,
            ),
            forall|i: int| 0 <= i < r@.len() ==> #[trigger] r@[i] == if items@[i].count <= 0 {
                0
            } else {
                min_int(
                    old(self).qty(items@[i].key()) - placed_qty(items@.take(i), r@.take(i), items@[i].key()),
                    items@[i].count as int,
                )
            },
            final(self).config == old(self).config,
            final(self).cell_type == old(self).cell_type,
    {
        let mut out: Vec<i32> = Vec::new();
        let mut i: usize = 0;
        while i < items.len()
            invariant
                i <= items@.len(),
                self.wf(),
                out@.len() == i,
                forall|j: int| 0 <= j < i ==> 0 <= #[trigger] out@[j] && (items@[j].count >= 0
                    ==> out@[j] <= items@[j].count),
                forall|j: int| 0 <= j < i ==> #[trigger] out@[j] == if items@[j].count <= 0 {
                    0
                } else {
                    min_int(
                        old(self).qty(items@[j].key()) - placed_qty(items@.take(j), out@.take(j), items@[j].key()),
                        items@[j].count as int,
                    )
                },
                forall|k: UnitKey| #[trigger] self.qty(k) == old(self).qty(k) - placed_qty(
                    items@.take(i as int),
                    out@,
                    k,
                ),
                self.config == old(self).config,
                self.cell_type == old(self).cell_type,
            decreases items@.len() - i,
        {
            let ghost prev = out@;
            let ghost key = items@[i as int].key();
            let ghost q = self.qty(key);
            let taken = self.take(&items[i]);
            out.push(taken);
            proof {
                lemma_placed_step(items@, prev, i as int, taken);
                assert(out@.take(i as int) =~= prev);
                assert(q == old(self).qty(key) - placed_qty(items@.take(i as int), prev, key));
                assert forall|j: int| 0 <= j < i implies out@.take(j) == #[trigger] prev.take(j) by {
                    assert(out@.take(j) =~= prev.take(j));
                }
            }
            i = i + 1;
        }
        proof {
            assert(items@.take(items@.len() as int) =~= items@);
            assert(out@.take(out@.len() as int) =~= out@);
        }
        out
    }

    /// Empties the cell, keeping its type and configuration.
    pub fn clear(&mut self)
        requires
            old(self).wf(),
        ensures
            final(self).wf(),
            final(self).entries().len() == 0,
            forall|k: UnitKey| #[trigger] final(self).qty(k) == 0,
            final(self).config == old(self).config,
            final(self).cell_type == old(self).cell_type,
    {
        self.stored_items.clear();
        self.refresh_cache();
        proof {
            assert forall|k: UnitKey| #[trigger] self.qty(k) == 0 by {
                lemma_qty_unique(self.entries(), k);
            }
        }
    }
}

} // verus!