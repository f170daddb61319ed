use vstd::prelude::*;
use crate::sums::{
    sum_of, lemma_sum_push, lemma_sum_prefix_step, lemma_sum_prefix_bound, lemma_sum_le,
    lemma_sum_update, lemma_sum_insert, lemma_sum_remove, lemma_sum_zero, lemma_sum_nonneg,
    lemma_sum_concat, lemma_sum_pointwise,
};
use crate::storage::{
    find_entry, StorageCell, StoredItem, qty_in, has_key, unique_keys, positive_counts,
    lemma_qty_unique, entry_qty, placed_qty, lemma_placed_step, room_in, inserted,
    StorageCellType,
};
use crate::unit::{key_lt, lemma_key_lt_order, StoredItemType, UnitKey};
use crate::storage::min_int;
use crate::item::Item;

verus! {

broadcast use vstd::multiset::group_multiset_axioms;

/// A batch of insertions.
pub struct InsertBatch {}

/// A network of storage cells in priority order, with two caches derived
/// from the cells: the total of each unit, and the cells that hold it.
pub struct Grid<'a, T: StoredItemType> {
    pub storage_cells: Vec<StorageCell<'a, T>>,
    /// One entry per unit held anywhere, with its total quantity.
    pub stored_items_cache: Vec<StoredItem<'a, T>>,
    /// For the unit at the same position of `stored_items_cache`, the
    /// positions of the cells that hold it, in grid order.
    pub stored_items_priority_cache: Vec<Vec<usize>>,
}

pub open spec fn cell_qty<'a, T: StoredItemType>(k: UnitKey) -> spec_fn(StorageCell<'a, T>) -> int {
    |c: StorageCell<'a, T>| c.qty(k)
}

pub open spec fn cell_units<'a, T: StoredItemType>() -> spec_fn(StorageCell<'a, T>) -> int {
    |c: StorageCell<'a, T>| 8 * c.capacity()
}

/// The quantity of `k` over a sequence of cells.
pub open spec fn total_in<'a, T: StoredItemType>(cells: Seq<StorageCell<'a, T>>, k: UnitKey) -> int {
    sum_of(cells, cell_qty(k))
}

/// How many units the cells can hold at most, all together.
pub open spec fn unit_capacity<'a, T: StoredItemType>(cells: Seq<StorageCell<'a, T>>) -> int {
    sum_of(cells, cell_units())
}

/// The positions of the cells that hold `k`, in order.
pub open spec fn holders<'a, T: StoredItemType>(cells: Seq<StorageCell<'a, T>>, k: UnitKey) -> Seq<
    usize,
>
    decreases cells.len(),
{
    if cells.len() == 0 {
        Seq::empty()
    } else {
        holders(cells.drop_last(), k) + if cells.last().holds(k) {
            seq![(cells.len() - 1) as usize]
        } else {
            Seq::empty()
        }
    }
}

/// Position by position, the cells hold the same quantity of every unit but `key`.
pub open spec fn others_kept<'a, T: StoredItemType>(
    before: Seq<StorageCell<'a, T>>,
    after: Seq<StorageCell<'a, T>>,
    key: UnitKey,
) -> bool {
    &&& before.len() == after.len()
    &&& forall|i: int, k: UnitKey|
        0 <= i < after.len() && k != key ==> #[trigger] after[i].qty(k) == before[i].qty(k)
}

/// Position by position, the cells keep their configuration and type.
pub open spec fn same_layout<'a, T: StoredItemType>(
    before: Seq<StorageCell<'a, T>>,
    after: Seq<StorageCell<'a, T>>,
) -> bool {
    &&& before.len() == after.len()
    &&& forall|i: int|
        0 <= i < after.len() ==> (#[trigger] after[i]).config == before[i].config
            && after[i].cell_type == before[i].cell_type
}

/// The entries of each cell, in order.
pub open spec fn entries_of<'a, T: StoredItemType>(cells: Seq<StorageCell<'a, T>>) -> Seq<Seq<StoredItem<'a, T>>> {
    cells.map_values(|c: StorageCell<'a, T>| c.entries())
}

/// The type of each cell, in order.
pub open spec fn types_of<'a, T: StoredItemType>(cells: Seq<StorageCell<'a, T>>) -> Seq<StorageCellType> {
    cells.map_values(|c: StorageCell<'a, T>| c.cell_type)
}

/// Offers `c` units of `e`'s unit to cell `i` of a layout `st` with cell
/// types `cts`: the layout after the cell took its room, and what is left.
pub open spec fn offer<'a, T: StoredItemType>(
    st: Seq<Seq<StoredItem<'a, T>>>,
    cts: Seq<StorageCellType>,
    i: int,
    e: StoredItem<'a, T>,
    c: int,
) -> (Seq<Seq<StoredItem<'a, T>>>, int) {
    if 0 <= i < st.len() && i < cts.len() {
        let r = room_in(st[i], cts[i], e.key(), c);
        (st.update(i, inserted(st[i], e, r)), c - r)
    } else {
        (st, c)
    }
}

/// Offers what is left of `c` units to the cells at `idxs`, in turn.
pub open spec fn scan<'a, T: StoredItemType>(
    st: Seq<Seq<StoredItem<'a, T>>>,
    cts: Seq<StorageCellType>,
    e: StoredItem<'a, T>,
    c: int,
    idxs: Seq<usize>,
) -> (Seq<Seq<StoredItem<'a, T>>>, int)
    decreases idxs.len(),
{
    if idxs.len() == 0 {
        (st, c)
    } else {
        let p = scan(st, cts, e, c, idxs.drop_last());
        offer(p.0, cts, idxs.last() as int, e, p.1)
    }
}

pub open spec fn in_order(n: nat) -> Seq<usize> {
    Seq::new(n, |i: int| i as usize)
}

/// Placing `e`: first in the cells at `locs`, in turn, then in every cell
/// in order. The layout that results, and the quantity that found no room.
pub open spec fn route<'a, T: StoredItemType>(
    st: Seq<Seq<StoredItem<'a, T>>>,
    cts: Seq<StorageCellType>,
    e: StoredItem<'a, T>,
    locs: Seq<usize>,
) -> (Seq<Seq<StoredItem<'a, T>>>, int) {
    let p = scan(st, cts, e, e.count as int, locs);
    scan(p.0, cts, e, p.1, in_order(st.len()))
}

/// The layout after placing each of `items` in turn, each first in the
/// cells that `locs` gives for its unit.
pub open spec fn batch_fill<'a, T: StoredItemType>(
    st: Seq<Seq<StoredItem<'a, T>>>,
    cts: Seq<StorageCellType>,
    items: Seq<StoredItem<'a, T>>,
    locs: spec_fn(UnitKey) -> Seq<usize>,
) -> Seq<Seq<StoredItem<'a, T>>>
    decreases items.len(),
{
    if items.len() == 0 {
        st
    } else {
        let p = batch_fill(st, cts, items.drop_last(), locs);
        route(p, cts, items.last(), locs(items.last().key())).0
    }
}

/// How many cells at the front of `s` have priority at most `p`.
pub open spec fn leading_at_most<'a, T: StoredItemType>(s: Seq<StorageCell<'a, T>>, p: i32) -> nat
    decreases s.len(),
{
    if s.len() == 0 || s[0].config.priority > p {
        0
    } else {
        1 + leading_at_most(s.drop_first(), p)
    }
}

/// `s` in priority order, stably: each cell in turn goes after every cell
/// of equal or lower priority placed before it.
pub open spec fn stable_sorted<'a, T: StoredItemType>(s: Seq<StorageCell<'a, T>>) -> Seq<StorageCell<'a, T>>
    decreases s.len(),
{
    if s.len() == 0 {
        s
    } else {
        let o = stable_sorted(s.drop_last());
        o.insert(leading_at_most(o, s.last().config.priority) as int, s.last())
    }
}

/// A layout of `n` empty cells.
pub open spec fn empty_layout<'a, T: StoredItemType>(n: nat) -> Seq<Seq<StoredItem<'a, T>>> {
    Seq::new(n, |i: int| Seq::<StoredItem<'a, T>>::empty())
}

/// No cell is named for any unit.
pub open spec fn no_locations() -> spec_fn(UnitKey) -> Seq<usize> {
    |k: UnitKey| Seq::<usize>::empty()
}

/// Entries in strictly ascending order of their units' identities.
pub open spec fn identity_sorted<'a, T: StoredItemType>(s: Seq<StoredItem<'a, T>>) -> bool {
    forall|a: int, b: int| 0 <= a < b < s.len() ==> key_lt(#[trigger] s[a].key(), #[trigger] s[b].key())
}

/// Once nothing is left to place, the remaining cells are left as they are.
pub proof fn lemma_scan_idle<'a, T: StoredItemType>(
    st: Seq<Seq<StoredItem<'a, T>>>,
    cts: Seq<StorageCellType>,
    e: StoredItem<'a, T>,
    c: int,
    idxs: Seq<usize>,
    a: int,
)
    requires
        0 <= a <= idxs.len(),
        scan(st, cts, e, c, idxs.take(a)).1 <= 0,
    ensures
        scan(st, cts, e, c, idxs) == scan(st, cts, e, c, idxs.take(a)),
    decreases idxs.len() - a,
{
    if a == idxs.len() {
        assert(idxs.take(a) =~= idxs);
    } else {
        let p = scan(st, cts, e, c, idxs.take(a));
        assert(idxs.take(a + 1).drop_last() =~= idxs.take(a));
        let i = idxs[a] as int;
        if 0 <= i < p.0.len() && i < cts.len() {
            assert(p.0.update(i, inserted(p.0[i], e, 0)) =~= p.0);
        }
        lemma_scan_idle(st, cts, e, c, idxs, a + 1);
    }
}

/// A cell that took `added` units of `e`'s unit is the layout step `offer` describes.
pub proof fn lemma_offer_step<'a, T: StoredItemType>(
    before: Seq<StorageCell<'a, T>>,
    after: Seq<StorageCell<'a, T>>,
    ci: int,
    e: StoredItem<'a, T>,
    e2: StoredItem<'a, T>,
    c: int,
    added: int,
)
    requires
        0 <= ci < before.len(),
        after == before.update(ci, after[ci]),
        e2.item == e.item,
        after[ci].entries() == inserted(before[ci].entries(), e2, added),
        added == room_in(before[ci].entries(), before[ci].cell_type, e.key(), c),
        after[ci].cell_type == before[ci].cell_type,
    ensures
        offer(entries_of(before), types_of(before), ci, e, c) == (entries_of(after), c - added),
        types_of(after) == types_of(before),
{
    assert(inserted(before[ci].entries(), e2, added) == inserted(before[ci].entries(), e, added));
    assert(entries_of(after) =~= entries_of(before).update(ci, after[ci].entries()));
    assert(types_of(after) =~= types_of(before));
}

/// Offering nothing, or offering to a saturated cell or a position past the
/// last cell, leaves the layout as it is.
pub proof fn lemma_offer_idle<'a, T: StoredItemType>(
    cells: Seq<StorageCell<'a, T>>,
    ci: int,
    e: StoredItem<'a, T>,
    c: int,
)
    requires
        all_wf(cells),
        c <= 0 || ci < 0 || ci >= cells.len() || cells[ci].is_saturated(),
    ensures
        offer(entries_of(cells), types_of(cells), ci, e, c) == (entries_of(cells), c),
{
    if 0 <= ci < cells.len() {
        assert(cells[ci].wf());
        let st = entries_of(cells);
        assert(st[ci] == cells[ci].entries());
        assert(room_in(st[ci], types_of(cells)[ci], e.key(), c) == 0);
        assert(st.update(ci, inserted(st[ci], e, 0)) =~= st);
    }
}

pub open spec fn sorted_by_priority<'a, T: StoredItemType>(cells: Seq<StorageCell<'a, T>>) -> bool {
    forall|i: int, j: int|
        0 <= i < j < cells.len() ==> (#[trigger] cells[i]).config.priority
            <= (#[trigger] cells[j]).config.priority
}

pub open spec fn all_wf<'a, T: StoredItemType>(cells: Seq<StorageCell<'a, T>>) -> bool {
    forall|i: int| 0 <= i < cells.len() ==> (#[trigger] cells[i]).wf()
}

/// Well-formed cells in priority order, whose units can be counted in `i32`.
pub open spec fn cells_ok<'a, T: StoredItemType>(cells: Seq<StorageCell<'a, T>>) -> bool {
    &&& all_wf(cells)
    &&& sorted_by_priority(cells)
    &&& unit_capacity(cells) <= i32::MAX
}

pub proof fn lemma_holders_step<'a, T: StoredItemType>(cells: Seq<StorageCell<'a, T>>, i: int)
    requires
        0 <= i < cells.len(),
    ensures
        forall|k: UnitKey| #[trigger] holders(cells.take(i + 1), k) == holders(cells.take(i), k)
            + if cells[i].holds(k) {
            seq![i as usize]
        } else {
            Seq::empty()
        },
{
    assert(cells.take(i + 1).drop_last() =~= cells.take(i));
}

/// The holders are exactly the positions of the cells that hold `k`.
pub proof fn lemma_holders_members<'a, T: StoredItemType>(cells: Seq<StorageCell<'a, T>>, k: UnitKey)
    requires
        cells.len() <= usize::MAX,
    ensures
        forall|t: int| 0 <= t < holders(cells, k).len() ==> (#[trigger] holders(cells, k)[t]) < cells.len()
            && cells[holders(cells, k)[t] as int].holds(k),
        forall|i: int| 0 <= i < cells.len() && (#[trigger] cells[i]).holds(k) ==> holders(cells, k).contains(i as usize),
        forall|u: int, v: int| 0 <= u < v < holders(cells, k).len() ==> #[trigger] holders(cells, k)[u] < #[trigger] holders(cells, k)[v],
    decreases cells.len(),
{
    if cells.len() > 0 {
        let d = cells.drop_last();
        lemma_holders_members(d, k);
        let h = holders(cells, k);
        let hd = holders(d, k);
        assert forall|t: int| 0 <= t < h.len() implies (#[trigger] h[t]) < cells.len() && cells[h[t] as int].holds(k) by {
            if t < hd.len() {
                assert(h[t] == hd[t]);
                assert(hd[t] < d.len() && d[hd[t] as int].holds(k));
                assert(cells[hd[t] as int] == d[hd[t] as int]);
            } else {
                assert(cells.last().holds(k));
                assert(h[t] == (cells.len() - 1) as usize);
            }
        }
        assert forall|i: int| 0 <= i < cells.len() && (#[trigger] cells[i]).holds(k) implies h.contains(i as usize) by {
            if i < d.len() {
                assert(d[i] == cells[i]);
                let t = choose|t: int| 0 <= t < hd.len() && hd[t] == i as usize;
                assert(h[t] == hd[t]);
            } else {
                assert(h[hd.len() as int] == i as usize);
            }
        }
        assert forall|u: int, v: int| 0 <= u < v < h.len() implies #[trigger] h[u] < #[trigger] h[v] by {
            assert(h[u] == hd[u]);
            if v < hd.len() {
                assert(h[v] == hd[v]);
            } else {
                assert(hd[u] < d.len());
            }
        }
    }
}

/// Where the cells hold no `k` at all, no cell holds it.
pub proof fn lemma_total_zero<'a, T: StoredItemType>(cells: Seq<StorageCell<'a, T>>, k: UnitKey)
    requires
        all_wf(cells),
        total_in(cells, k) == 0,
    ensures
        holders(cells, k) =~= Seq::<usize>::empty(),
        forall|i: int| 0 <= i < cells.len() ==> !(#[trigger] cells[i]).holds(k),
    decreases cells.len(),
{
    if cells.len() > 0 {
        let d = cells.drop_last();
        lemma_cells_total_bounds(d, k);
        cells.last().lemma_qty_bounds(k);
        assert forall|i: int| 0 <= i < d.len() implies (#[trigger] d[i]).wf() by {
            assert(d[i] == cells[i]);
        }
        lemma_total_zero(d, k);
        assert forall|i: int| 0 <= i < cells.len() implies !(#[trigger] cells[i]).holds(k) by {
            if i < d.len() {
                assert(d[i] == cells[i]);
            }
        }
    }
}

/// The quantity of `k` over well-formed cells is between zero and their unit capacity.
pub proof fn lemma_cells_total_bounds<'a, T: StoredItemType>(cells: Seq<StorageCell<'a, T>>, k: UnitKey)
    requires
        all_wf(cells),
    ensures
        0 <= total_in(cells, k) <= unit_capacity(cells),
        unit_capacity(cells) >= 0,
{
    assert forall|i: int| 0 <= i < cells.len() implies (#[trigger] cell_qty::<T>(k)(cells[i])) <= cell_units::<T>()(cells[i]) && cell_qty::<T>(k)(cells[i]) >= 0 by {
        cells[i].lemma_qty_bounds(k);
    }
    lemma_sum_le(cells, cell_qty::<T>(k), cell_units::<T>());
    lemma_sum_nonneg(cells, cell_qty::<T>(k));
    assert forall|i: int| 0 <= i < cells.len() implies (#[trigger] cell_units::<T>()(cells[i])) >= 0 by {
        assert(cells[i].wf());
    }
    lemma_sum_nonneg(cells, cell_units::<T>());
}

/// Replacing one cell by another of the same type and configuration keeps
/// the cells in order and within capacity, and changes only that cell's share.
pub proof fn lemma_cells_update<'a, T: StoredItemType>(
    cells: Seq<StorageCell<'a, T>>,
    ci: int,
    c2: StorageCell<'a, T>,
)
    requires
        cells_ok(cells),
        0 <= ci < cells.len(),
        c2.wf(),
        c2.config == cells[ci].config,
        c2.cell_type == cells[ci].cell_type,
    ensures
        cells_ok(cells.update(ci, c2)),
        unit_capacity(cells.update(ci, c2)) == unit_capacity(cells),
        forall|k: UnitKey| #[trigger] total_in(cells.update(ci, c2), k) == total_in(cells, k)
            - cells[ci].qty(k) + c2.qty(k),
{
    let u = cells.update(ci, c2);
    lemma_sum_update(cells, ci, c2, cell_units::<T>());
    assert forall|k: UnitKey| #[trigger] total_in(u, k) == total_in(cells, k) - cells[ci].qty(k) + c2.qty(k) by {
        lemma_sum_update(cells, ci, c2, cell_qty::<T>(k));
    }
    assert(sorted_by_priority(u)) by {
        assert forall|i: int, j: int| 0 <= i < j < u.len() implies (#[trigger] u[i]).config.priority <= (#[trigger] u[j]).config.priority by {
            assert(cells[i].config.priority <= cells[j].config.priority);
        }
    }
}

impl<'a, T: StoredItemType> Grid<'a, T> {
    pub open spec fn cells(self) -> Seq<StorageCell<'a, T>> {
        self.storage_cells@
    }

    /// The quantity of `k` across all cells.
    pub open spec fn total(self, k: UnitKey) -> int {
        total_in(self.cells(), k)
    }

    /// The caches agree with the cells: one entry per unit held, with its
    /// total, and the positions of the cells that hold it.
    pub open spec fn cache_ok(self) -> bool {
        &&& unique_keys(self.stored_items_cache@)
        &&& positive_counts(self.stored_items_cache@)
        &&& self.stored_items_priority_cache@.len() == self.stored_items_cache@.len()
        &&& forall|k: UnitKey| #[trigger] qty_in(self.stored_items_cache@, k) == self.total(k)
        &&& forall|j: int|
            0 <= j < self.stored_items_cache@.len() ==> (#[trigger] self.stored_items_priority_cache@[j])@
                == holders(self.cells(), self.stored_items_cache@[j].key())
    }

    /// The cells the location cache names for `k`: the list stored beside
    /// the first cache entry of `k`, if any.
    pub open spec fn locations_for(self, k: UnitKey) -> Seq<usize> {
        if exists|j: int| 0 <= j < self.stored_items_cache@.len() && #[trigger] self.stored_items_cache@[j].key() == k {
            let j = choose|j: int|
                0 <= j < self.stored_items_cache@.len() && #[trigger] self.stored_items_cache@[j].key() == k
                    && forall|m: int| 0 <= m < j ==> #[trigger] self.stored_items_cache@[m].key() != k;
            if j < self.stored_items_priority_cache@.len() {
                self.stored_items_priority_cache@[j]@
            } else {
                Seq::empty()
            }
        } else {
            Seq::empty()
        }
    }

    /// In a consistent grid the location cache names exactly the holders of each unit.
    pub proof fn lemma_locations_are_holders(self, k: UnitKey)
        requires
            self.wf(),
        ensures
            self.locations_for(k) == holders(self.cells(), k),
    {
        let cache = self.stored_items_cache@;
        lemma_qty_unique(cache, k);
        if exists|j: int| 0 <= j < cache.len() && #[trigger] cache[j].key() == k {
            let j0 = choose|j: int| 0 <= j < cache.len() && #[trigger] cache[j].key() == k;
            assert(0 <= j0 < cache.len() && cache[j0].key() == k && forall|m: int| 0 <= m < j0 ==> #[trigger] cache[m].key() != k) by {
                assert forall|m: int| 0 <= m < j0 implies #[trigger] cache[m].key() != k by {
                    assert(cache[m].key() != cache[j0].key());
                }
            }
        } else {
            assert(!has_key(cache, k));
            assert(self.total(k) == 0);
            lemma_total_zero(self.cells(), k);
        }
    }

    /// In a consistent grid the aggregate cache has an entry for a unit
    /// exactly when some cell holds it, with the unit's total across the cells.
    pub proof fn lemma_cache_entries(self, k: UnitKey)
        requires
            self.wf(),
        ensures
            qty_in(self.stored_items_cache@, k) == self.total(k),
            has_key(self.stored_items_cache@, k) <==> exists|i: int| 0 <= i < self.cells().len() && (#[trigger] self.cells()[i]).holds(k),
    {
        let cache = self.stored_items_cache@;
        let cells = self.cells();
        lemma_qty_unique(cache, k);
        lemma_cells_total_bounds(cells, k);
        if has_key(cache, k) {
            let j = choose|j: int| 0 <= j < cache.len() && #[trigger] cache[j].key() == k;
            assert(cache[j].count > 0);
            if !exists|i: int| 0 <= i < cells.len() && (#[trigger] cells[i]).holds(k) {
                assert forall|i: int| 0 <= i < cells.len() implies (#[trigger] cell_qty::<T>(k)(cells[i])) == 0 by {
                    assert(cells[i].wf());
                    cells[i].lemma_qty_bounds(k);
                }
                lemma_sum_zero(cells, cell_qty::<T>(k));
            }
        }
        if exists|i: int| 0 <= i < cells.len() && (#[trigger] cells[i]).holds(k) {
            let i = choose|i: int| 0 <= i < cells.len() && (#[trigger] cells[i]).holds(k);
            assert forall|x: int| 0 <= x < cells.len() implies (#[trigger] cell_qty::<T>(k)(cells[x])) >= 0 by {
                assert(cells[x].wf());
                cells[x].lemma_qty_bounds(k);
            }
            assert(cells[i].wf());
            cells[i].lemma_qty_bounds(k);
            crate::sums::lemma_sum_term_le(cells, i, cell_qty::<T>(k));
        }
    }

    /// The grid's invariant.
    pub open spec fn wf(self) -> bool {
        &&& cells_ok(self.cells())
        &&& self.cache_ok()
    }

    /// Rebuilds both caches from the cells.
    pub fn refresh_cache(&mut self)
        requires
            cells_ok(old(self).cells()),
        ensures
            final(self).wf(),
            final(self).storage_cells == old(self).storage_cells,
            forall|k: UnitKey| #[trigger] qty_in(final(self).stored_items_cache@, k) == final(self).total(k),
            forall|k: UnitKey| #[trigger] has_key(final(self).stored_items_cache@, k) <==> exists|i: int|
                0 <= i < final(self).cells().len() && (#[trigger] final(self).cells()[i]).holds(k),
            forall|k: UnitKey| #[trigger] final(self).locations_for(k) == holders(final(self).cells(), k),
    {
        let ghost cells = self.cells();
        let mut agg: Vec<StoredItem<'a, T>> = Vec::new();
        let mut locs: Vec<Vec<usize>> = Vec::new();
        let mut ci: usize = 0;
        while ci < self.storage_cells.len()
            invariant
                cells == self.cells(),
                cells_ok(cells),
                ci <= cells.len(),
                unique_keys(agg@),
                positive_counts(agg@),
                locs@.len() == agg@.len(),
                forall|k: UnitKey| #[trigger] qty_in(agg@, k) == total_in(cells.take(ci as int), k),
                forall|j: int| 0 <= j < agg@.len() ==> (#[trigger] locs@[j])@ == holders(
                    cells.take(ci as int),
                    agg@[j].key(),
                ),
            decreases cells.len() - ci,
        {
            let ghost before = cells.take(ci as int);
            let ghost cell = cells[ci as int];
            let ghost es = cell.entries();
            proof {
                assert(cell.wf());
                lemma_holders_step(cells, ci as int);
                assert forall|k: UnitKey| #[trigger] total_in(cells.take(ci + 1), k) == total_in(before, k) + cell.qty(k) by {
                    lemma_sum_prefix_step(cells, ci as int, cell_qty::<T>(k));
                }
            }
            let mut ei: usize = 0;
            while ei < self.storage_cells[ci].stored_items.len()
                invariant
                    cells == self.cells(),
                    cells_ok(cells),
                    ci < cells.len(),
                    cell == cells[ci as int],
                    es == cell.entries(),
                    cell.wf(),
                    before == cells.take(ci as int),
                    ei <= es.len(),
                    unique_keys(agg@),
                    positive_counts(agg@),
                    locs@.len() == agg@.len(),
                    forall|k: UnitKey| #[trigger] total_in(cells.take(ci + 1), k) == total_in(before, k) + cell.qty(k),
                    forall|k: UnitKey| #[trigger] qty_in(agg@, k) == total_in(before, k) + qty_in(es.take(ei as int), k),
                    forall|j: int| 0 <= j < agg@.len() ==> (#[trigger] locs@[j])@ == holders(
                        before,
                        agg@[j].key(),
                    ) + if has_key(es.take(ei as int), agg@[j].key()) {
                        seq![ci]
                    } else {
                        Seq::empty()
                    },
                decreases es.len() - ei,
            {
                let e = &self.storage_cells[ci].stored_items[ei];
                let ghost k = e.key();
                proof {
                    assert(es[ei as int] == *e);
                    assert(es.take(ei + 1).drop_last() =~= es.take(ei as int));
                    assert forall|k2: UnitKey| #[trigger] qty_in(es.take(ei + 1), k2) == qty_in(es.take(ei as int), k2) + if k2 == k { e.count as int } else { 0 } by {
                        lemma_sum_prefix_step(es, ei as int, entry_qty::<T>(k2));
                    }
                    assert forall|k2: UnitKey| #[trigger] has_key(es.take(ei + 1), k2) == (has_key(es.take(ei as int), k2) || k2 == k) by {
                        if has_key(es.take(ei + 1), k2) && k2 != k {
                            let j = choose|j: int| 0 <= j < ei + 1 && #[trigger] es.take(ei + 1)[j].key() == k2;
                            assert(es.take(ei as int)[j] == es[j]);
                        }
                        if has_key(es.take(ei as int), k2) {
                            let j = choose|j: int| 0 <= j < ei && #[trigger] es.take(ei as int)[j].key() == k2;
                            assert(es.take(ei + 1)[j] == es[j]);
                        }
                        if k2 == k {
                            assert(es.take(ei + 1)[ei as int] == es[ei as int]);
                        }
                    }
                    assert(!has_key(es.take(ei as int), k)) by {
                        if has_key(es.take(ei as int), k) {
                            let j = choose|j: int| 0 <= j < ei && #[trigger] es.take(ei as int)[j].key() == k;
                            assert(es.take(ei as int)[j] == es[j]);
                            assert(es[j].key() != es[ei as int].key());
                        }
                    }
                    // the running total stays within what all the cells can hold
                    assert forall|j: int| 0 <= j < es.len() implies (#[trigger] entry_qty::<T>(k)(es[j])) >= 0 by {
                        assert(es[j].count > 0);
                    }
                    lemma_sum_prefix_bound(es, ei as int + 1, entry_qty::<T>(k));
                    lemma_cells_total_bounds(cells.take(ci + 1), k);
                    lemma_cells_total_bounds(cells, k);
                    assert forall|i: int| 0 <= i < cells.len() implies (#[trigger] cell_qty::<T>(k)(cells[i])) >= 0 by {
                        cells[i].lemma_qty_bounds(k);
                    }
                    lemma_sum_prefix_bound(cells, ci as int + 1, cell_qty::<T>(k));
                    lemma_qty_unique(agg@, k);
                    assert(e.count > 0);
                }
                let found = find_entry(&agg, e.item);
                let ghost a0 = agg@;
                let ghost l0 = locs@;
                match found {
                    Some(j) => {
                        assert(agg@[j as int].key() == k);
                        let c = agg[j].count;
                        agg[j].count = c + e.count;
                        let mut l = locs.remove(j);
                        l.push(ci);
                        locs.insert(j, l);
                        proof {
                            let ne = StoredItem { item: a0[j as int].item, count: (c + e.count) as i32 };
                            assert(agg@ =~= a0.update(j as int, ne));
                            assert forall|k2: UnitKey| #[trigger] qty_in(agg@, k2) == qty_in(a0, k2) + if k2 == k { e.count as int } else { 0 } by {
                                lemma_sum_update(a0, j as int, ne, entry_qty::<T>(k2));
                            }
                            assert(locs@ =~= l0.update(j as int, l));
                            assert forall|m: int, n: int| 0 <= m < n < agg@.len() implies #[trigger] agg@[m].key() != #[trigger] agg@[n].key() by {
                                assert(a0[m].key() != a0[n].key());
                            }
                        }
                    },
                    None => {
                        proof {
                            assert(!has_key(a0, k));
                            assert forall|i: int| 0 <= i < before.len() implies (#[trigger] before[i]).wf() by {
                                assert(before[i] == cells[i]);
                            }
                            assert(total_in(before, k) + qty_in(es.take(ei as int), k) == 0);
                            lemma_cells_total_bounds(before, k);
                            lemma_sum_prefix_bound(es, ei as int, entry_qty::<T>(k));
                            lemma_total_zero(before, k);
                        }
                        let ne = StoredItem { item: e.item, count: e.count };
                        agg.push(ne);
                        let mut l: Vec<usize> = Vec::new();
                        l.push(ci);
                        locs.push(l);
                        proof {
                            assert(agg@ =~= a0.push(ne));
                            assert forall|k2: UnitKey| #[trigger] qty_in(agg@, k2) == qty_in(a0, k2) + if k2 == k { e.count as int } else { 0 } by {
                                lemma_sum_push(a0, ne, entry_qty::<T>(k2));
                            }
                            assert(locs@ =~= l0.push(l));
                            assert(l@ =~= holders(before, k) + seq![ci]);
                            assert forall|m: int, n: int| 0 <= m < n < agg@.len() implies #[trigger] agg@[m].key() != #[trigger] agg@[n].key() by {
                                if n == a0.len() {
                                    assert(a0[m].key() != k);
                                } else {
                                    assert(a0[m].key() != a0[n].key());
                                }
                            }
                        }
                    },
                }
                ei = ei + 1;
            }
            proof {
                assert(es.take(es.len() as int) =~= es);
                assert forall|j: int| 0 <= j < agg@.len() implies (#[trigger] locs@[j])@ == holders(
                    cells.take(ci + 1),
                    agg@[j].key(),
                ) by {
                    let kj = agg@[j].key();
                    assert(has_key(es, kj) == cell.holds(kj));
                }
            }
            ci = ci + 1;
        }
        proof {
            assert(cells.take(cells.len() as int) =~= cells);
        }
        self.stored_items_cache = agg;
        self.stored_items_priority_cache = locs;
        proof {
            assert forall|k: UnitKey| #[trigger] has_key(self.stored_items_cache@, k) <==> exists|i: int|
                0 <= i < self.cells().len() && (#[trigger] self.cells()[i]).holds(k) by {
                self.lemma_cache_entries(k);
            }
            assert forall|k: UnitKey| #[trigger] self.locations_for(k) == holders(self.cells(), k) by {
                self.lemma_locations_are_holders(k);
            }
        }
    }
    /// Offers `item` to the cell at `ci`.
    fn insert_at(cells: &mut Vec<StorageCell<'a, T>>, ci: usize, item: StoredItem<'a, T>) -> (r: i32)
        requires
            cells_ok(old(cells)@),
            ci < old(cells)@.len(),
        ensures
            final(cells)@ == old(cells)@.update(ci as int, final(cells)@[ci as int]),
            cells_ok(final(cells)@),
            r == old(cells)@[ci as int].room(item.key(), item.count as int),
            0 <= r,
            item.count >= 0 ==> r <= item.count,
            forall|k: UnitKey| #[trigger] total_in(final(cells)@, k) == total_in(old(cells)@, k) + if k == item.key() {
                r as int
            } else {
                0
            },
            0 < item.count && r < item.count ==> final(cells)@[ci as int].room(item.key(), 1) == 0,
            old(cells)@[ci as int].stays_closed(final(cells)@[ci as int]),
            others_kept(old(cells)@, final(cells)@, item.key()),
            same_layout(old(cells)@, final(cells)@),
            final(cells)@[ci as int].qty(item.key()) == old(cells)@[ci as int].qty(item.key()) + r,
            r == 0 ==> final(cells)@ == old(cells)@,
            r == room_in(old(cells)@[ci as int].entries(), old(cells)@[ci as int].cell_type, item.key(), item.count as int),
            final(cells)@[ci as int].entries() == inserted(old(cells)@[ci as int].entries(), item, r as int),
    {
        let ghost before = cells@;
        assert(before[ci as int].wf());
        let r = cells[ci].insert(item);
        proof {
            if r == 0 {
                assert(cells@ =~= before);
            }
            lemma_cells_update(before, ci as int, cells@[ci as int]);
            assert(cells@ =~= before.update(ci as int, cells@[ci as int]));
        }
        r
    }

    /// Withdraws up to `item.count` units from the cell at `ci`.
    fn take_at(cells: &mut Vec<StorageCell<'a, T>>, ci: usize, item: &StoredItem<'a, T>) -> (r: i32)
        requires
            cells_ok(old(cells)@),
            ci < old(cells)@.len(),
            item.count > 0,
        ensures
            final(cells)@ == old(cells)@.update(ci as int, final(cells)@[ci as int]),
            cells_ok(final(cells)@),
            r == min_int(old(cells)@[ci as int].qty(item.key()), item.count as int),
            0 <= r <= item.count,
            forall|k: UnitKey| #[trigger] total_in(final(cells)@, k) == total_in(old(cells)@, k) - if k == item.key() {
                r as int
            } else {
                0
            },
            forall|k: UnitKey| #[trigger] final(cells)@[ci as int].qty(k) == old(cells)@[ci as int].qty(k) - if k == item.key() {
                r as int
            } else {
                0
            },
            others_kept(old(cells)@, final(cells)@, item.key()),
            same_layout(old(cells)@, final(cells)@),
            r == 0 ==> final(cells)@ == old(cells)@,
    {
        let ghost before = cells@;
        assert(before[ci as int].wf());
        let r = cells[ci].take(item);
        proof {
            if r == 0 {
                assert(cells@ =~= before);
            }
            lemma_cells_update(before, ci as int, cells@[ci as int]);
            assert(cells@ =~= before.update(ci as int, cells@[ci as int]));
        }
        r
    }

    /// Places `item` without refreshing the caches: first in the cells the
    /// location cache names for its unit, in order, then in every cell in
    /// order. Saturated cells are skipped. Returns what could not be placed.
    fn do_insert(&mut self, item: StoredItem<'a, T>) -> (r: i32)
        requires
            cells_ok(old(self).cells()),
        ensures
            cells_ok(final(self).cells()),
            final(self).cells().len() == old(self).cells().len(),
            item.count >= 0 ==> 0 <= r <= item.count,
            item.count < 0 ==> r == item.count,
            forall|k: UnitKey| #[trigger] final(self).total(k) == old(self).total(k) + if k == item.key() {
                item.count - r
            } else {
                0
            },
            r > 0 ==> forall|i: int| 0 <= i < final(self).cells().len() ==> (#[trigger] final(self).cells()[i]).room(item.key(), 1) == 0,
            forall|i: int| 0 <= i < final(self).cells().len() ==> old(self).cells()[i].stays_closed(#[trigger] final(self).cells()[i]),
            others_kept(old(self).cells(), final(self).cells(), item.key()),
            old(self).cache_ok() ==> forall|i: int, j: int|
                0 <= i < final(self).cells().len() && 0 <= j < final(self).cells().len()
                    && !old(self).cells()[i].holds(item.key()) && #[trigger] final(self).cells()[i].qty(item.key()) > 0
                    && (j < i || old(self).cells()[j].holds(item.key()))
                    ==> #[trigger] final(self).cells()[j].room(item.key(), 1) == 0,
            same_layout(old(self).cells(), final(self).cells()),
            forall|i: int| 0 <= i < final(self).cells().len() ==> #[trigger] final(self).cells()[i].qty(item.key()) >= old(self).cells()[i].qty(item.key()),
            r == item.count ==> final(self).cells() == old(self).cells(),
            !has_key(old(self).stored_items_cache@, item.key()) ==> forall|i: int, j: int|
                0 <= j < i < final(self).cells().len()
                    && !old(self).cells()[i].holds(item.key()) && #[trigger] final(self).cells()[i].qty(item.key()) > 0
                    ==> #[trigger] final(self).cells()[j].room(item.key(), 1) == 0,
            entries_of(final(self).cells()) == route(
                entries_of(old(self).cells()),
                types_of(old(self).cells()),
                item,
                old(self).locations_for(item.key()),
            ).0,
            r == route(
                entries_of(old(self).cells()),
                types_of(old(self).cells()),
                item,
                old(self).locations_for(item.key()),
            ).1,
            forall|i: int| 0 <= i < final(self).cells().len() && old(self).cells()[i].room(item.key(), 1) == 0
                ==> #[trigger] final(self).cells()[i] == old(self).cells()[i],
            final(self).stored_items_cache == old(self).stored_items_cache,
            final(self).stored_items_priority_cache == old(self).stored_items_priority_cache,
    {
        let ghost key = item.key();
        let ghost oc = self.cells();
        let ghost ok = self.cache_ok();
        let ghost fresh = !has_key(self.stored_items_cache@, key);
        let ghost e0 = entries_of(self.cells());
        let ghost c0 = types_of(self.cells());
        let ghost locs = self.locations_for(key);
        let ghost p1 = scan(e0, c0, item, item.count as int, locs);
        let mut count = item.count;
        let n = self.storage_cells.len();
        proof {
            if ok {
                lemma_qty_unique(self.stored_items_cache@, key);
            }
            lemma_holders_members(oc, key);
            assert forall|i: int| 0 <= i < n && !oc[i].holds(key) implies #[trigger] oc[i].qty(key) == 0 by {
                assert(oc[i].wf());
                oc[i].lemma_qty_bounds(key);
            }
        }
        match find_entry(&self.stored_items_cache, item.item) {
            Some(j) => {
                proof {
                    assert(!fresh);
                    let cache = self.stored_items_cache@;
                    let jj = choose|jj: int|
                        0 <= jj < cache.len() && #[trigger] cache[jj].key() == key
                            && forall|m: int| 0 <= m < jj ==> #[trigger] cache[m].key() != key;
                    assert(cache[j as int].key() == key);
                    if jj < j {
                        assert(cache[jj].key() != key);
                    }
                    if j < jj {
                        assert(cache[j as int].key() != key);
                    }
                    assert(jj == j);
                }
                if j < self.stored_items_priority_cache.len() {
                    let ghost h = self.stored_items_priority_cache@[j as int]@;
                    proof {
                        assert(h == locs);
                        assert(h.take(0) =~= Seq::<usize>::empty());
                    }
                    let m = self.stored_items_priority_cache[j].len();
                    let mut t: usize = 0;
                    while t < m
                        invariant
                            cells_ok(self.cells()),
                            self.cells().len() == n,
                            n == oc.len(),
                            oc == old(self).cells(),
                            ok == old(self).cache_ok(),
                            j < self.stored_items_priority_cache@.len(),
                            h == self.stored_items_priority_cache@[j as int]@,
                            m == h.len(),
                            t <= m,
                            item.count >= 0 ==> 0 <= count <= item.count,
                            item.count < 0 ==> count == item.count,
                            forall|k: UnitKey| #[trigger] self.total(k) == old(self).total(k) + if k == key {
                                item.count - count
                            } else {
                                0
                            },
                            key == item.key(),
                            forall|i: int| 0 <= i < n ==> old(self).cells()[i].stays_closed(#[trigger] self.cells()[i]),
                            others_kept(old(self).cells(), self.cells(), key),
                            same_layout(oc, self.cells()),
                            forall|i: int| 0 <= i < n ==> #[trigger] self.cells()[i].qty(key) >= oc[i].qty(key),
                            count == item.count ==> self.cells() == oc,
                            ok ==> h == holders(oc, key),
                            ok ==> forall|u: int| 0 <= u < m ==> (#[trigger] h[u]) < n && oc[h[u] as int].holds(key),
                            ok ==> forall|i: int| 0 <= i < n && !oc[i].holds(key) ==> #[trigger] self.cells()[i].qty(key) == 0,
                            ok && count > 0 ==> forall|u: int| 0 <= u < t ==> (#[trigger] self.cells()[h[u] as int]).room(key, 1) == 0,
                            self.stored_items_cache == old(self).stored_items_cache,
                            self.stored_items_priority_cache == old(self).stored_items_priority_cache,
                            types_of(self.cells()) == c0,
                            forall|i: int| 0 <= i < n && oc[i].room(key, 1) == 0 ==> #[trigger] self.cells()[i] == oc[i],
                            e0 == entries_of(oc),
                            c0 == types_of(oc),
                            entries_of(self.cells()) == scan(e0, c0, item, item.count as int, h.take(t as int)).0,
                            count == scan(e0, c0, item, item.count as int, h.take(t as int)).1,
                        decreases m - t,
                    {
                        proof {
                            assert(h.take(t + 1).drop_last() =~= h.take(t as int));
                        }
                        if count > 0 {
                            let ci = self.stored_items_priority_cache[j][t];
                            if ci < n && !self.storage_cells[ci].is_full() {
                                let ghost before = self.cells();
                                let ghost g0 = *self;
                                let it = StoredItem { item: item.item, count };
                                let ghost itg = it;
                                let added = Self::insert_at(&mut self.storage_cells, ci, it);
                                proof {
                                    assert(before[ci as int].wf());
                                    lemma_offer_step(before, self.cells(), ci as int, item, itg, count as int, added as int);
                        assert forall|i: int| 0 <= i < n && oc[i].room(key, 1) == 0 implies #[trigger] self.cells()[i] == oc[i] by {
                            if i == ci {
                                assert(before[i] == oc[i]);
                                assert(added == 0);
                            } else {
                                assert(self.cells()[i] == before[i]);
                            }
                        }
                                    assert forall|i: int| 0 <= i < n && oc[i].room(key, 1) == 0 implies #[trigger] self.cells()[i] == oc[i] by {
                                        if i == ci {
                                            assert(before[i] == oc[i]);
                                            assert(added == 0);
                                        } else {
                                            assert(self.cells()[i] == before[i]);
                                        }
                                    }
                                    assert forall|k: UnitKey| #[trigger] self.total(k) == g0.total(k) + if k == key { added as int } else { 0 } by {
                                        assert(total_in(self.cells(), k) == total_in(before, k) + if k == key { added as int } else { 0 });
                                    }
                                    assert forall|i: int| 0 <= i < n implies #[trigger] self.cells()[i].qty(key) >= oc[i].qty(key) by {
                                        if i != ci {
                                            assert(self.cells()[i] == before[i]);
                                        }
                                    }
                                    if ok {
                                        assert forall|i: int| 0 <= i < n && !oc[i].holds(key) implies #[trigger] self.cells()[i].qty(key) == 0 by {
                                            assert(i != ci);
                                            assert(self.cells()[i] == before[i]);
                                        }
                                        if count - added > 0 {
                                            assert forall|u: int| 0 <= u < t + 1 implies (#[trigger] self.cells()[h[u] as int]).room(key, 1) == 0 by {
                                                if h[u] != ci {
                                                    assert(self.cells()[h[u] as int] == before[h[u] as int]);
                                                }
                                            }
                                        }
                                    }
                                }
                                count = count - added;
                            } else {
                                proof {
                                    if ok {
                                        assert(self.cells()[ci as int].is_saturated());
                                    }
                                    lemma_offer_idle(self.cells(), ci as int, item, count as int);
                                }
                            }
                        } else {
                            proof {
                                lemma_offer_idle(self.cells(), h[t as int] as int, item, count as int);
                            }
                        }
                        t = t + 1;
                    }
                    proof {
                        assert(h.take(m as int) =~= h);
                        if ok && count > 0 {
                            assert forall|i: int| 0 <= i < n && oc[i].holds(key) implies (#[trigger] self.cells()[i]).room(key, 1) == 0 by {
                                let u = choose|u: int| 0 <= u < h.len() && h[u] == i as usize;
                                assert(self.cells()[h[u] as int].room(key, 1) == 0);
                            }
                        }
                    }
                }
            },
            None => {
                proof {
                    if ok {
                        assert(old(self).total(key) == 0);
                        lemma_total_zero(oc, key);
                    }
                }
            },
        }
        proof {
            if ok {
                assert(self.stored_items_priority_cache@.len() == self.stored_items_cache@.len());
            }
            if locs.len() == 0 {
                assert(self.cells() == oc);
            }
            assert(entries_of(self.cells()) == p1.0);
            assert(count == p1.1);
            assert(in_order(n as nat).take(0) =~= Seq::<usize>::empty());
        }
        if count > 0 {
            let mut ci: usize = 0;
            while ci < n && count > 0
                invariant
                    cells_ok(self.cells()),
                    self.cells().len() == n,
                    n == oc.len(),
                    oc == old(self).cells(),
                    ok == old(self).cache_ok(),
                    ci <= n,
                    item.count >= 0,
                    0 <= count <= item.count,
                    forall|k: UnitKey| #[trigger] self.total(k) == old(self).total(k) + if k == key {
                        item.count - count
                    } else {
                        0
                    },
                    count > 0 ==> forall|i: int| 0 <= i < ci ==> (#[trigger] self.cells()[i]).room(key, 1) == 0,
                    key == item.key(),
                    forall|i: int| 0 <= i < n ==> old(self).cells()[i].stays_closed(#[trigger] self.cells()[i]),
                    others_kept(old(self).cells(), self.cells(), key),
                    same_layout(oc, self.cells()),
                    forall|i: int| 0 <= i < n ==> #[trigger] self.cells()[i].qty(key) >= oc[i].qty(key),
                    count == item.count ==> self.cells() == oc,
                    fresh ==> forall|i: int| ci <= i < n && !oc[i].holds(key) ==> #[trigger] self.cells()[i].qty(key) == 0,
                    fresh ==> forall|i: int, j: int| 0 <= j < i < n && !oc[i].holds(key) && #[trigger] self.cells()[i].qty(key) > 0
                        ==> #[trigger] self.cells()[j].room(key, 1) == 0,
                    ok && count > 0 ==> forall|i: int| 0 <= i < n && oc[i].holds(key) ==> (#[trigger] self.cells()[i]).room(key, 1) == 0,
                    ok ==> forall|i: int| ci <= i < n && !oc[i].holds(key) ==> #[trigger] self.cells()[i].qty(key) == 0,
                    ok ==> forall|i: int, j: int| 0 <= i < n && 0 <= j < n && !oc[i].holds(key) && #[trigger] self.cells()[i].qty(key) > 0
                        && (j < i || oc[j].holds(key)) ==> #[trigger] self.cells()[j].room(key, 1) == 0,
                    self.stored_items_cache == old(self).stored_items_cache,
                    self.stored_items_priority_cache == old(self).stored_items_priority_cache,
                    types_of(self.cells()) == c0,
                    forall|i: int| 0 <= i < n && oc[i].room(key, 1) == 0 ==> #[trigger] self.cells()[i] == oc[i],
                    c0 == types_of(oc),
                    p1 == scan(e0, c0, item, item.count as int, locs),
                    entries_of(self.cells()) == scan(p1.0, c0, item, p1.1, in_order(n as nat).take(ci as int)).0,
                    count == scan(p1.0, c0, item, p1.1, in_order(n as nat).take(ci as int)).1,
                decreases n - ci,
            {
                proof {
                    assert(in_order(n as nat).take(ci + 1).drop_last() =~= in_order(n as nat).take(ci as int));
                    assert(in_order(n as nat)[ci as int] == ci);
                }
                if !self.storage_cells[ci].is_full() {
                    let ghost before = self.cells();
                    let ghost g0 = *self;
                    let it = StoredItem { item: item.item, count };
                    let ghost itg = it;
                    let added = Self::insert_at(&mut self.storage_cells, ci, it);
                    proof {
                        assert(before[ci as int].wf());
                        lemma_offer_step(before, self.cells(), ci as int, item, itg, count as int, added as int);
                        assert forall|i: int| 0 <= i < n && oc[i].room(key, 1) == 0 implies #[trigger] self.cells()[i] == oc[i] by {
                            if i == ci {
                                assert(before[i] == oc[i]);
                                assert(added == 0);
                            } else {
                                assert(self.cells()[i] == before[i]);
                            }
                        }
                        assert forall|i: int| 0 <= i < ci implies (#[trigger] self.cells()[i]) == before[i] by {}
                        assert forall|k: UnitKey| #[trigger] self.total(k) == g0.total(k) + if k == key { added as int } else { 0 } by {
                            assert(total_in(self.cells(), k) == total_in(before, k) + if k == key { added as int } else { 0 });
                        }
                        assert forall|i: int| 0 <= i < n implies #[trigger] self.cells()[i].qty(key) >= oc[i].qty(key) by {
                            if i != ci {
                                assert(self.cells()[i] == before[i]);
                            }
                        }
                        if fresh {
                            assert forall|i: int| ci + 1 <= i < n && !oc[i].holds(key) implies #[trigger] self.cells()[i].qty(key) == 0 by {
                                assert(self.cells()[i] == before[i]);
                            }
                            assert forall|i: int, j: int| 0 <= j < i < n && !oc[i].holds(key) && #[trigger] self.cells()[i].qty(key) > 0
                                implies #[trigger] self.cells()[j].room(key, 1) == 0 by {
                                if i != ci {
                                    assert(self.cells()[i] == before[i]);
                                    if j != ci {
                                        assert(self.cells()[j] == before[j]);
                                    } else {
                                        assert(before[j].room(key, 1) == 0);
                                        assert(before[j].stays_closed(self.cells()[j]));
                                    }
                                } else {
                                    assert(self.cells()[j] == before[j]);
                                }
                            }
                        }
                        if ok {
                            if count - added > 0 {
                                assert forall|i: int| 0 <= i < n && oc[i].holds(key) implies (#[trigger] self.cells()[i]).room(key, 1) == 0 by {
                                    if i != ci {
                                        assert(self.cells()[i] == before[i]);
                                    }
                                }
                            }
                            assert forall|i: int| ci + 1 <= i < n && !oc[i].holds(key) implies #[trigger] self.cells()[i].qty(key) == 0 by {
                                assert(self.cells()[i] == before[i]);
                            }
                            assert forall|i: int, j: int| 0 <= i < n && 0 <= j < n && !oc[i].holds(key) && #[trigger] self.cells()[i].qty(key) > 0
                                && (j < i || oc[j].holds(key)) implies #[trigger] self.cells()[j].room(key, 1) == 0 by {
                                if i != ci {
                                    assert(self.cells()[i] == before[i]);
                                    if j != ci {
                                        assert(self.cells()[j] == before[j]);
                                    } else {
                                        assert(before[j].room(key, 1) == 0);
                                        assert(before[j].stays_closed(self.cells()[j]));
                                    }
                                } else {
                                    assert(j != ci);
                                    assert(self.cells()[j] == before[j]);
                                }
                            }
                        }
                    }
                    count = count - added;
                } else {
                    proof {
                        assert(self.cells()[ci as int].is_saturated());
                        lemma_offer_idle(self.cells(), ci as int, item, count as int);
                    }
                }
                ci = ci + 1;
            }
            proof {
                if ci == n {
                    assert(in_order(n as nat).take(n as int) =~= in_order(n as nat));
                } else {
                    lemma_scan_idle(p1.0, c0, item, p1.1, in_order(n as nat), ci as int);
                }
            }
        } else {
            proof {
                lemma_scan_idle(p1.0, c0, item, p1.1, in_order(n as nat), 0);
            }
        }
        count
    }

    /// Places `item` as `do_insert` does and refreshes the caches; returns
    /// the quantity that found no room.
    pub fn insert(&mut self, item: StoredItem<'a, T>) -> (r: i32)
        requires
            old(self).wf(),
        ensures
            final(self).wf(),
            final(self).cells().len() == old(self).cells().len(),
            item.count >= 0 ==> 0 <= r <= item.count,
            item.count < 0 ==> r == item.count,
            forall|k: UnitKey| #[trigger] final(self).total(k) == old(self).total(k) + if k == item.key() {
                item.count - r
            } else {
                0
            },
            r > 0 ==> forall|i: int| 0 <= i < final(self).cells().len() ==> (#[trigger] final(self).cells()[i]).room(item.key(), 1) == 0,
            others_kept(old(self).cells(), final(self).cells(), item.key()),
            forall|i: int, j: int|
                0 <= i < final(self).cells().len() && 0 <= j < final(self).cells().len()
                    && !old(self).cells()[i].holds(item.key()) && #[trigger] final(self).cells()[i].qty(item.key()) > 0
                    && (j < i || old(self).cells()[j].holds(item.key()))
                    ==> #[trigger] final(self).cells()[j].room(item.key(), 1) == 0,
            same_layout(old(self).cells(), final(self).cells()),
            forall|i: int| 0 <= i < final(self).cells().len() ==> #[trigger] final(self).cells()[i].qty(item.key()) >= old(self).cells()[i].qty(item.key()),
            r == item.count ==> final(self).cells() == old(self).cells()
                && final(self).stored_items_cache == old(self).stored_items_cache
                && final(self).stored_items_priority_cache == old(self).stored_items_priority_cache,
            forall|i: int| 0 <= i < final(self).cells().len() && old(self).cells()[i].room(item.key(), 1) == 0
                ==> #[trigger] final(self).cells()[i] == old(self).cells()[i],
            entries_of(final(self).cells()) == route(
                entries_of(old(self).cells()),
                types_of(old(self).cells()),
                item,
                holders(old(self).cells(), item.key()),
            ).0,
            r == route(
                entries_of(old(self).cells()),
                types_of(old(self).cells()),
                item,
                holders(old(self).cells(), item.key()),
            ).1,
    {
        proof {
            old(self).lemma_locations_are_holders(item.key());
        }
        let count = item.count;
        let r = self.do_insert(item);
        if r == count {
            proof {
                assert(self.storage_cells@ =~= old(self).storage_cells@);
            }
            return r;
        }
        let ghost mid = *self;
        self.refresh_cache();
        proof {
            assert forall|k: UnitKey| #[trigger] self.total(k) == mid.total(k) by {
                assert(self.cells() == mid.cells());
            }
        }
        r
    }

    /// Withdraws without refreshing the caches, from the cells that hold the
    /// unit, last cell first.
    fn do_take(&mut self, item: StoredItem<'a, T>) -> (r: i32)
        requires
            old(self).wf(),
        ensures
            cells_ok(final(self).cells()),
            final(self).cells().len() == old(self).cells().len(),
            r == if item.count <= 0 {
                0
            } else {
                min_int(item.count as int, old(self).total(item.key()))
            },
            forall|k: UnitKey| #[trigger] final(self).total(k) == old(self).total(k) - if k == item.key() {
                r as int
            } else {
                0
            },
            others_kept(old(self).cells(), final(self).cells(), item.key()),
            forall|i: int, j: int| 0 <= i < j < final(self).cells().len() && #[trigger] final(self).cells()[i].qty(item.key())
                < old(self).cells()[i].qty(item.key()) ==> #[trigger] final(self).cells()[j].qty(item.key()) == 0,
            same_layout(old(self).cells(), final(self).cells()),
            forall|i: int| 0 <= i < final(self).cells().len() ==> #[trigger] final(self).cells()[i].qty(item.key()) <= old(self).cells()[i].qty(item.key()),
            r == 0 ==> final(self).cells() == old(self).cells(),
            final(self).stored_items_cache == old(self).stored_items_cache,
            final(self).stored_items_priority_cache == old(self).stored_items_priority_cache,
    {
        let ghost key = item.key();
        let ghost cells0 = self.cells();
        let mut count = item.count;
        let mut taken: i32 = 0;
        let n = self.storage_cells.len();
        proof {
            lemma_cells_total_bounds(cells0, key);
            lemma_qty_unique(self.stored_items_cache@, key);
        }
        if count <= 0 {
            return 0;
        }
        match find_entry(&self.stored_items_cache, item.item) {
            Some(j) => {
                let ghost h = self.stored_items_priority_cache@[j as int]@;
                proof {
                    lemma_holders_members(cells0, key);
                }
                let m = self.stored_items_priority_cache[j].len();
                let mut t: usize = m;
                while t > 0
                    invariant
                        cells_ok(self.cells()),
                        self.cells().len() == n,
                        n == cells0.len(),
                        j < self.stored_items_priority_cache@.len(),
                        h == self.stored_items_priority_cache@[j as int]@,
                        h == holders(cells0, key),
                        m == h.len(),
                        t <= m,
                        0 <= count,
                        0 <= taken,
                        count + taken == item.count,
                        forall|k: UnitKey| #[trigger] self.total(k) == total_in(cells0, k) - if k == key {
                            taken as int
                        } else {
                            0
                        },
                        count > 0 ==> forall|u: int| t <= u < m ==> (#[trigger] self.cells()[h[u] as int]).qty(key) == 0,
                        forall|i: int| 0 <= i < n && !h.contains(i as usize) ==> #[trigger] self.cells()[i] == cells0[i],
                        forall|i: int| 0 <= i < n && (#[trigger] cells0[i]).holds(key) ==> h.contains(i as usize),
                        forall|u: int| 0 <= u < m ==> (#[trigger] h[u]) < n,
                        key == item.key(),
                        others_kept(cells0, self.cells(), key),
                        same_layout(cells0, self.cells()),
                        forall|i: int| 0 <= i < n ==> #[trigger] self.cells()[i].qty(key) <= cells0[i].qty(key),
                        taken == 0 ==> self.cells() == cells0,
                        self.stored_items_cache == old(self).stored_items_cache,
                        self.stored_items_priority_cache == old(self).stored_items_priority_cache,
                        forall|i: int, j: int| 0 <= i < j < n && #[trigger] self.cells()[i].qty(key)
                            < cells0[i].qty(key) ==> #[trigger] self.cells()[j].qty(key) == 0,
                        forall|u: int, v: int| 0 <= u < v < m ==> #[trigger] h[u] < #[trigger] h[v],
                    decreases t,
                {
                    t = t - 1;
                    if count > 0 {
                        let ci = self.stored_items_priority_cache[j][t];
                        let ghost before = self.cells();
                                let ghost g0 = *self;
                        let got = Self::take_at(
                            &mut self.storage_cells,
                            ci,
                            &StoredItem { item: item.item, count },
                        );
                        proof {
                            assert forall|i: int| 0 <= i < n implies #[trigger] self.cells()[i].qty(key) <= cells0[i].qty(key) by {
                                if i != ci {
                                    assert(self.cells()[i] == before[i]);
                                }
                            }
                            assert forall|k: UnitKey| #[trigger] self.total(k) == g0.total(k) - if k == key { got as int } else { 0 } by {
                                assert(total_in(self.cells(), k) == total_in(before, k) - if k == key { got as int } else { 0 });
                            }
                            before[ci as int].lemma_qty_bounds(key);
                            self.cells()[ci as int].lemma_qty_bounds(key);
                            assert forall|u: int| t <= u < m && count - got > 0 implies (#[trigger] self.cells()[h[u] as int]).qty(key) == 0 by {
                                if h[u] == ci {
                                } else {
                                    assert(self.cells()[h[u] as int] == before[h[u] as int]);
                                }
                            }
                            assert forall|i: int| 0 <= i < n && !h.contains(i as usize) implies #[trigger] self.cells()[i] == cells0[i] by {
                                assert(h[t as int] == ci);
                                assert(i != ci);
                                assert(self.cells()[i] == before[i]);
                            }
                            assert forall|i: int, j: int| 0 <= i < j < n && #[trigger] self.cells()[i].qty(key)
                                < cells0[i].qty(key) implies #[trigger] self.cells()[j].qty(key) == 0 by {
                                if j == ci {
                                    assert(self.cells()[i] == before[i]);
                                    assert(before[j].qty(key) == 0);
                                } else if i == ci {
                                    assert(self.cells()[j] == before[j]);
                                    if h.contains(j as usize) {
                                        let u = choose|u: int| 0 <= u < m && h[u] == j as usize;
                                        assert(h[u] > h[t as int]);
                                        assert(u > t);
                                        assert(before[h[u] as int].qty(key) == 0);
                                    } else {
                                        assert(before[j] == cells0[j]);
                                        assert(cells0[j].wf());
                                        cells0[j].lemma_qty_bounds(key);
                                    }
                                } else {
                                    assert(self.cells()[j] == before[j]);
                                    assert(self.cells()[i] == before[i]);
                                }
                            }
                        }
                        taken = taken + got;
                        count = count - got;
                    }
                }
                proof {
                    if count > 0 {
                        assert forall|i: int| 0 <= i < n implies (#[trigger] cell_qty::<T>(key)(self.cells()[i])) == 0 by {
                            if h.contains(i as usize) {
                                let u = choose|u: int| 0 <= u < m && h[u] == i as usize;
                                assert(self.cells()[h[u] as int].qty(key) == 0);
                            } else {
                                assert(self.cells()[i] == cells0[i]);
                                assert(cells0[i].wf());
                                cells0[i].lemma_qty_bounds(key);
                            }
                        }
                        lemma_sum_zero(self.cells(), cell_qty::<T>(key));
                    }
                    lemma_cells_total_bounds(self.cells(), key);
                    assert(self.total(key) == total_in(cells0, key) - taken);
                    assert(old(self).total(key) == total_in(cells0, key));
                }
            },
            None => {
                proof {
                    assert(total_in(cells0, key) == 0);
                }
            },
        }
        taken
    }

    /// Withdraws up to `item.count` units of its unit, from the cells that
    /// hold it, last cell first; returns the quantity taken.
    pub fn take(&mut self, item: StoredItem<'a, T>) -> (r: i32)
        requires
            old(self).wf(),
        ensures
            final(self).wf(),
            final(self).cells().len() == old(self).cells().len(),
            r == if item.count <= 0 {
                0
            } else {
                min_int(item.count as int, old(self).total(item.key()))
            },
            forall|k: UnitKey| #[trigger] final(self).total(k) == old(self).total(k) - if k == item.key() {
                r as int
            } else {
                0
            },
            others_kept(old(self).cells(), final(self).cells(), item.key()),
            forall|i: int, j: int| 0 <= i < j < final(self).cells().len() && #[trigger] final(self).cells()[i].qty(item.key())
                < old(self).cells()[i].qty(item.key()) ==> #[trigger] final(self).cells()[j].qty(item.key()) == 0,
            same_layout(old(self).cells(), final(self).cells()),
            forall|i: int| 0 <= i < final(self).cells().len() ==> #[trigger] final(self).cells()[i].qty(item.key()) <= old(self).cells()[i].qty(item.key()),
            r == 0 ==> final(self).cells() == old(self).cells()
                && final(self).stored_items_cache == old(self).stored_items_cache
                && final(self).stored_items_priority_cache == old(self).stored_items_priority_cache,
    {
        let r = self.do_take(item);
        if r == 0 {
            proof {
                assert(self.storage_cells@ =~= old(self).storage_cells@);
            }
            return r;
        }
        let ghost mid = *self;
        self.refresh_cache();
        proof {
            assert forall|k: UnitKey| #[trigger] self.total(k) == mid.total(k) by {
                assert(self.cells() == mid.cells());
            }
        }
        r
    }
    /// Puts the cells in ascending priority, keeping the order of cells of
    /// equal priority.
    fn sort_cells(cells: &mut Vec<StorageCell<'a, T>>)
        requires
            all_wf(old(cells)@),
        ensures
            all_wf(final(cells)@),
            sorted_by_priority(final(cells)@),
            final(cells)@.len() == old(cells)@.len(),
            unit_capacity(final(cells)@) == unit_capacity(old(cells)@),
            forall|k: UnitKey| #[trigger] total_in(final(cells)@, k) == total_in(old(cells)@, k),
            final(cells)@.to_multiset() == old(cells)@.to_multiset(),
            final(cells)@ == stable_sorted(old(cells)@),
    {
        let ghost all = cells@;
        let mut input: Vec<StorageCell<'a, T>> = Vec::new();
        std::mem::swap(&mut input, cells);
        let mut out: Vec<StorageCell<'a, T>> = Vec::new();
        proof {
            out@.to_multiset_ensures();
            assert(input@ == all);
            assert(all.take(0) =~= Seq::<StorageCell<'a, T>>::empty());
            assert(all.skip(0) =~= all);
            assert(out@.to_multiset().add(input@.to_multiset()) =~= all.to_multiset());
        }
        while input.len() > 0
            invariant
                all_wf(input@),
                all_wf(out@),
                sorted_by_priority(out@),
                out@.len() + input@.len() == all.len(),
                unit_capacity(out@) + unit_capacity(input@) == unit_capacity(all),
                forall|k: UnitKey| #[trigger] total_in(all, k) == total_in(out@, k) + total_in(input@, k),
                out@.to_multiset().add(input@.to_multiset()) == all.to_multiset(),
                out@ == stable_sorted(all.take(all.len() - input@.len())),
                input@ == all.skip(all.len() - input@.len()),
            decreases input@.len(),
        {
            let ghost in0 = input@;
            let ghost out0 = out@;
            let c = input.remove(0);
            let ghost kk = all.len() - in0.len();
            let mut pos: usize = 0;
            proof {
                assert(out@.skip(0) =~= out@);
            }
            while pos < out.len() && out[pos].config.priority <= c.config.priority
                invariant
                    pos <= out@.len(),
                    forall|i: int| 0 <= i < pos ==> (#[trigger] out@[i]).config.priority <= c.config.priority,
                    leading_at_most(out@, c.config.priority) == pos + leading_at_most(out@.skip(pos as int), c.config.priority),
                decreases out@.len() - pos,
            {
                proof {
                    assert(out@.skip(pos as int).drop_first() =~= out@.skip(pos + 1));
                }
                pos = pos + 1;
            }
            out.insert(pos, c);
            proof {
                assert(in0[0] == all[kk]);
                assert(all.take(kk + 1).drop_last() =~= all.take(kk));
                assert(input@ =~= all.skip(kk + 1));
                assert(leading_at_most(out0, c.config.priority) == pos);
                assert(in0[0] == c);
                assert(all_wf(input@)) by {
                    assert forall|i: int| 0 <= i < input@.len() implies (#[trigger] input@[i]).wf() by {
                        assert(input@[i] == in0[i + 1]);
                    }
                }
                assert(all_wf(out@)) by {
                    assert forall|i: int| 0 <= i < out@.len() implies (#[trigger] out@[i]).wf() by {
                        if i < pos {
                            assert(out@[i] == out0[i]);
                        } else if i > pos {
                            assert(out@[i] == out0[i - 1]);
                        }
                    }
                }
                assert(sorted_by_priority(out@)) by {
                    assert forall|i: int, j: int| 0 <= i < j < out@.len() implies (#[trigger] out@[i]).config.priority <= (#[trigger] out@[j]).config.priority by {
                        if j < pos {
                            assert(out0[i].config.priority <= out0[j].config.priority);
                        } else if j == pos {
                            assert(out@[i] == out0[i]);
                        } else if i < pos {
                            assert(out@[i] == out0[i]);
                            assert(out@[j] == out0[j - 1]);
                            assert(out0[pos as int].config.priority > c.config.priority);
                            if j - 1 > pos {
                                assert(out0[pos as int].config.priority <= out0[j - 1].config.priority);
                            }
                        } else if i == pos {
                            assert(out@[j] == out0[j - 1]);
                            assert(out0[pos as int].config.priority > c.config.priority);
                            if j - 1 > pos {
                                assert(out0[pos as int].config.priority <= out0[j - 1].config.priority);
                            }
                        } else {
                            assert(out0[i - 1].config.priority <= out0[j - 1].config.priority);
                        }
                    }
                }
                lemma_sum_remove(in0, 0, cell_units::<T>());
                lemma_sum_insert(out0, pos as int, c, cell_units::<T>());
                vstd::seq_lib::to_multiset_remove(in0, 0);
                vstd::seq_lib::to_multiset_insert(out0, pos as int, c);
                vstd::seq_lib::to_multiset_contains(in0, c);
                assert(out@.to_multiset().add(input@.to_multiset()) =~= all.to_multiset());
                assert(in0.remove(0) =~= input@);
                assert(out0.insert(pos as int, c) =~= out@);
                assert forall|k: UnitKey| #[trigger] total_in(all, k) == total_in(out@, k) + total_in(input@, k) by {
                    lemma_sum_remove(in0, 0, cell_qty::<T>(k));
                    lemma_sum_insert(out0, pos as int, c, cell_qty::<T>(k));
                }
            }
        }
        proof {
            input@.to_multiset_ensures();
            assert(out@.to_multiset() =~= all.to_multiset());
            lemma_sum_zero(input@, cell_units::<T>());
            assert forall|k: UnitKey| #[trigger] total_in(out@, k) == total_in(all, k) by {
                lemma_sum_zero(input@, cell_qty::<T>(k));
            }
        }
        proof {
            assert(all.take(all.len() as int) =~= all);
        }
        *cells = out;
    }

    /// Adds a cell, puts the cells back in priority order and rebuilds the caches.
    pub fn insert_storage_cell(&mut self, cell: StorageCell<'a, T>)
        requires
            old(self).wf(),
            cell.wf(),
            unit_capacity(old(self).cells()) + 8 * cell.capacity() <= i32::MAX,
        ensures
            final(self).wf(),
            final(self).cells().len() == old(self).cells().len() + 1,
            forall|k: UnitKey| #[trigger] final(self).total(k) == old(self).total(k) + cell.qty(k),
            final(self).cells().to_multiset() == old(self).cells().push(cell).to_multiset(),
            final(self).cells() == stable_sorted(old(self).cells().push(cell)),
    {
        let ghost c0 = self.cells();
        let ghost cl = cell;
        self.storage_cells.push(cell);
        proof {
            assert(self.cells() =~= c0.push(cl));
            lemma_sum_push(c0, cl, cell_units::<T>());
            assert forall|k: UnitKey| #[trigger] total_in(self.cells(), k) == total_in(c0, k) + cl.qty(k) by {
                lemma_sum_push(c0, cl, cell_qty::<T>(k));
            }
            assert(all_wf(self.cells())) by {
                assert forall|i: int| 0 <= i < self.cells().len() implies (#[trigger] self.cells()[i]).wf() by {
                    if i < c0.len() {
                        assert(self.cells()[i] == c0[i]);
                    }
                }
            }
        }
        let ghost c1 = self.cells();
        Self::sort_cells(&mut self.storage_cells);
        self.refresh_cache();
        proof {
            assert forall|k: UnitKey| #[trigger] self.total(k) == old(self).total(k) + cl.qty(k) by {
                assert(total_in(self.cells(), k) == total_in(c1, k));
            }
        }
    }

    /// Places each item in turn as `insert` does, all against the location
    /// cache as it stood before the batch; the caches are not refreshed.
    #[verifier::rlimit(100)]
    fn do_insert_many(&mut self, items: &Vec<StoredItem<'a, T>>) -> (r: Vec<i32>)
        requires
            cells_ok(old(self).cells()),
        ensures
            cells_ok(final(self).cells()),
            final(self).cells().len() == old(self).cells().len(),
            r@.len() == items@.len(),
            forall|i: int| 0 <= i < r@.len() && items@[i].count >= 0 ==> 0 <= #[trigger] r@[i] <= items@[i].count,
            forall|k: UnitKey| #[trigger] final(self).total(k) == old(self).total(k) + qty_in(items@, k) - placed_qty(items@, r@, k),
            forall|i: int, c: int| 0 <= i < r@.len() && 0 <= c < final(self).cells().len() && #[trigger] r@[i] > 0
                ==> (#[trigger] final(self).cells()[c]).room(items@[i].key(), 1) == 0,
            same_layout(old(self).cells(), final(self).cells()),
            (old(self).stored_items_cache@.len() == 0 && unique_keys(items@) && forall|c: int, k: UnitKey|
                0 <= c < old(self).cells().len() ==> #[trigger] old(self).cells()[c].qty(k) == 0) ==> forall|k: UnitKey, i: int, j: int|
                0 <= j < i < final(self).cells().len() && #[trigger] final(self).cells()[i].holds(k)
                    ==> #[trigger] final(self).cells()[j].room(k, 1) == 0,
            entries_of(final(self).cells()) == batch_fill(
                entries_of(old(self).cells()),
                types_of(old(self).cells()),
                items@,
                |k: UnitKey| old(self).locations_for(k),
            ),
            forall|i: int| 0 <= i < r@.len() ==> #[trigger] r@[i] == route(
                batch_fill(
                    entries_of(old(self).cells()),
                    types_of(old(self).cells()),
                    items@.take(i),
                    |k: UnitKey| old(self).locations_for(k),
                ),
                types_of(old(self).cells()),
                items@[i],
                old(self).locations_for(items@[i].key()),
            ).1,
            final(self).stored_items_cache == old(self).stored_items_cache,
            final(self).stored_items_priority_cache == old(self).stored_items_priority_cache,
    {
        let ghost e0 = entries_of(old(self).cells());
        let ghost c0 = types_of(old(self).cells());
        let ghost lf = |k: UnitKey| old(self).locations_for(k);
        let ghost n = old(self).cells().len();
        let ghost pe = old(self).stored_items_cache@.len() == 0 && unique_keys(items@) && forall|c: int, k: UnitKey|
            0 <= c < old(self).cells().len() ==> #[trigger] old(self).cells()[c].qty(k) == 0;
        proof {
            if pe {
                assert forall|k: UnitKey, i: int, j: int| 0 <= j < i < n && #[trigger] self.cells()[i].holds(k)
                    implies #[trigger] self.cells()[j].room(k, 1) == 0 by {
                    assert(self.cells()[i].wf());
                    self.cells()[i].lemma_qty_bounds(k);
                }
            }
        }
        let mut remaining: Vec<i32> = Vec::new();
        let mut i: usize = 0;
        while i < items.len()
            invariant
                cells_ok(self.cells()),
                self.cells().len() == old(self).cells().len(),
                i <= items@.len(),
                remaining@.len() == i,
                forall|j: int| 0 <= j < i && items@[j].count >= 0 ==> 0 <= #[trigger] remaining@[j] <= items@[j].count,
                forall|k: UnitKey| #[trigger] self.total(k) == old(self).total(k) + qty_in(items@.take(i as int), k) - placed_qty(items@.take(i as int), remaining@, k),
                forall|j: int, c: int| 0 <= j < i && 0 <= c < self.cells().len() && #[trigger] remaining@[j] > 0
                    ==> (#[trigger] self.cells()[c]).room(items@[j].key(), 1) == 0,
                n == old(self).cells().len(),
                same_layout(old(self).cells(), self.cells()),
                pe == (old(self).stored_items_cache@.len() == 0 && unique_keys(items@) && forall|c: int, k: UnitKey|
                    0 <= c < old(self).cells().len() ==> #[trigger] old(self).cells()[c].qty(k) == 0),
                pe ==> forall|k: UnitKey, c: int| 0 <= c < n && !has_key(items@.take(i as int), k)
                    ==> #[trigger] self.cells()[c].qty(k) == 0,
                pe ==> forall|k: UnitKey, a: int, b: int| 0 <= b < a < n && #[trigger] self.cells()[a].holds(k)
                    ==> #[trigger] self.cells()[b].room(k, 1) == 0,
                self.stored_items_cache == old(self).stored_items_cache,
                e0 == entries_of(old(self).cells()),
                c0 == types_of(old(self).cells()),
                lf == |k: UnitKey| old(self).locations_for(k),
                types_of(self.cells()) == c0,
                entries_of(self.cells()) == batch_fill(e0, c0, items@.take(i as int), lf),
                forall|j: int| 0 <= j < i ==> #[trigger] remaining@[j] == route(
                    batch_fill(e0, c0, items@.take(j), lf),
                    c0,
                    items@[j],
                    old(self).locations_for(items@[j].key()),
                ).1,
                self.stored_items_priority_cache == old(self).stored_items_priority_cache,
            decreases items@.len() - i,
        {
            let ghost g0 = *self;
            let ghost prev = remaining@;
            let it = StoredItem { item: items[i].item, count: items[i].count };
            let left = self.do_insert(it);
            remaining.push(left);
            proof {
                assert(items@.take(i + 1).drop_last() =~= items@.take(i as int));
                assert(it == items@[i as int]);
                assert(g0.locations_for(it.key()) == old(self).locations_for(it.key()));
                assert(types_of(self.cells()) =~= c0) by {
                    assert forall|x: int| 0 <= x < self.cells().len() implies types_of(self.cells())[x] == c0[x] by {
                        assert(self.cells()[x].cell_type == g0.cells()[x].cell_type);
                    }
                }
                assert forall|j: int| 0 <= j < i + 1 implies #[trigger] remaining@[j] == route(
                    batch_fill(e0, c0, items@.take(j), lf),
                    c0,
                    items@[j],
                    old(self).locations_for(items@[j].key()),
                ).1 by {
                    if j < i {
                        assert(remaining@[j] == prev[j]);
                    }
                }
                lemma_placed_step(items@, prev, i as int, left);
                assert forall|k: UnitKey| #[trigger] qty_in(items@.take(i + 1), k) == qty_in(items@.take(i as int), k) + if items@[i as int].key() == k { items@[i as int].count as int } else { 0 } by {
                    lemma_sum_prefix_step(items@, i as int, entry_qty::<T>(k));
                }
                assert forall|k: UnitKey| #[trigger] self.total(k) == old(self).total(k) + qty_in(items@.take(i + 1), k) - placed_qty(items@.take(i + 1), remaining@, k) by {
                    assert(self.total(k) == g0.total(k) + if k == it.key() { it.count - left } else { 0 });
                }
                if pe {
                    let kk = it.key();
                    assert(kk == items@[i as int].key());
                    let tk = items@.take(i as int);
                    let tk1 = items@.take(i + 1);
                    assert(!has_key(tk, kk)) by {
                        if has_key(tk, kk) {
                            let m = choose|m: int| 0 <= m < tk.len() && #[trigger] tk[m].key() == kk;
                            assert(items@[m].key() != items@[i as int].key());
                        }
                    }
                    assert forall|k: UnitKey| has_key(tk1, k) implies (has_key(tk, k) || k == kk) by {
                        let m = choose|m: int| 0 <= m < tk1.len() && #[trigger] tk1[m].key() == k;
                        if m < i {
                            assert(tk[m] == tk1[m]);
                        }
                    }
                    assert(!has_key(g0.stored_items_cache@, kk));
                    assert forall|c: int| 0 <= c < n implies !(#[trigger] g0.cells()[c]).holds(kk) by {
                        assert(g0.cells()[c].qty(kk) == 0);
                        assert(g0.cells()[c].wf());
                        g0.cells()[c].lemma_qty_bounds(kk);
                    }
                    assert forall|k: UnitKey, c: int| 0 <= c < n && !has_key(tk1, k)
                        implies #[trigger] self.cells()[c].qty(k) == 0 by {
                        assert(tk1[i as int] == items@[i as int]);
                        assert(k != kk);
                        assert(self.cells()[c].qty(k) == g0.cells()[c].qty(k));
                    }
                    assert forall|k: UnitKey, a: int, b: int| 0 <= b < a < n && #[trigger] self.cells()[a].holds(k)
                        implies #[trigger] self.cells()[b].room(k, 1) == 0 by {
                        assert(self.cells()[a].wf());
                        self.cells()[a].lemma_qty_bounds(k);
                        if k == kk {
                            assert(!g0.cells()[a].holds(kk));
                            assert(self.cells()[a].qty(kk) > 0);
                        } else {
                            assert(g0.cells()[a].wf());
                            g0.cells()[a].lemma_qty_bounds(k);
                            assert(self.cells()[a].qty(k) == g0.cells()[a].qty(k));
                            assert(g0.cells()[a].holds(k));
                            assert(g0.cells()[b].room(k, 1) == 0);
                            assert(g0.cells()[b].stays_closed(self.cells()[b]));
                        }
                    }
                }
                assert forall|j: int, c: int| 0 <= j <= i && 0 <= c < self.cells().len() && #[trigger] remaining@[j] > 0
                    implies (#[trigger] self.cells()[c]).room(items@[j].key(), 1) == 0 by {
                    if j < i {
                        assert(remaining@[j] == prev[j]);
                        assert(g0.cells()[c].room(items@[j].key(), 1) == 0);
                        assert(g0.cells()[c].stays_closed(self.cells()[c]));
                    }
                }
            }
            i = i + 1;
        }
        proof {
            assert(items@.take(items@.len() as int) =~= items@);
        }
        remaining
    }

    /// Places each item in turn, consulting the location cache as it stood
    /// before the batch, then rebuilds the caches once. Returns, per item,
    /// the quantity that found no room.
    pub fn insert_many(&mut self, items: Vec<StoredItem<'a, T>>) -> (r: Vec<i32>)
        requires
            old(self).wf(),
        ensures
            final(self).wf(),
            final(self).cells().len() == old(self).cells().len(),
            r@.len() == items@.len(),
            forall|i: int| 0 <= i < r@.len() && items@[i].count >= 0 ==> 0 <= #[trigger] r@[i] <= items@[i].count,
            forall|k: UnitKey| #[trigger] final(self).total(k) == old(self).total(k) + qty_in(items@, k) - placed_qty(items@, r@, k),
            forall|i: int, c: int| 0 <= i < r@.len() && 0 <= c < final(self).cells().len() && #[trigger] r@[i] > 0
                ==> (#[trigger] final(self).cells()[c]).room(items@[i].key(), 1) == 0,
            same_layout(old(self).cells(), final(self).cells()),
            forall|k: UnitKey| #[trigger] old(self).locations_for(k) == holders(old(self).cells(), k),
            entries_of(final(self).cells()) == batch_fill(
                entries_of(old(self).cells()),
                types_of(old(self).cells()),
                items@,
                |k: UnitKey| old(self).locations_for(k),
            ),
            forall|i: int| 0 <= i < r@.len() ==> #[trigger] r@[i] == route(
                batch_fill(
                    entries_of(old(self).cells()),
                    types_of(old(self).cells()),
                    items@.take(i),
                    |k: UnitKey| old(self).locations_for(k),
                ),
                types_of(old(self).cells()),
                items@[i],
                old(self).locations_for(items@[i].key()),
            ).1,
    {
        proof {
            assert forall|k: UnitKey| #[trigger] old(self).locations_for(k) == holders(old(self).cells(), k) by {
                old(self).lemma_locations_are_holders(k);
            }
        }
        let r = self.do_insert_many(&items);
        let ghost mid = *self;
        self.refresh_cache();
        proof {
            assert forall|k: UnitKey| #[trigger] self.total(k) == mid.total(k) by {
                assert(self.cells() == mid.cells());
            }
        }
        r
    }

    /// Takes over all of `other`'s cells, puts the cells in priority order
    /// and rebuilds the caches.
    pub fn union(&mut self, other: Self)
        requires
            old(self).wf(),
            other.wf(),
            unit_capacity(old(self).cells()) + unit_capacity(other.cells()) <= i32::MAX,
        ensures
            final(self).wf(),
            final(self).cells().len() == old(self).cells().len() + other.cells().len(),
            forall|k: UnitKey| #[trigger] final(self).total(k) == old(self).total(k) + other.total(k),
            final(self).is_union_of(*old(self), other),
            final(self).cells().to_multiset() == (old(self).cells() + other.cells()).to_multiset(),
            final(self).cells() == stable_sorted(old(self).cells() + other.cells()),
    {
        let ghost c0 = self.cells();
        let ghost o0 = other.cells();
        let mut other = other;
        self.storage_cells.append(&mut other.storage_cells);
        proof {
            assert(self.cells() =~= c0 + o0);
            lemma_sum_concat(c0, o0, cell_units::<T>());
            assert forall|k: UnitKey| #[trigger] total_in(self.cells(), k) == total_in(c0, k) + total_in(o0, k) by {
                lemma_sum_concat(c0, o0, cell_qty::<T>(k));
            }
            assert(all_wf(self.cells())) by {
                assert forall|i: int| 0 <= i < self.cells().len() implies (#[trigger] self.cells()[i]).wf() by {
                    if i < c0.len() {
                        assert(self.cells()[i] == c0[i]);
                    } else {
                        assert(self.cells()[i] == o0[i - c0.len()]);
                    }
                }
            }
        }
        let ghost c1 = self.cells();
        Self::sort_cells(&mut self.storage_cells);
        self.refresh_cache();
        proof {
            assert forall|k: UnitKey| #[trigger] self.total(k) == old(self).total(k) + total_in(o0, k) by {
                assert(total_in(self.cells(), k) == total_in(c1, k));
            }
        }
    }
    /// Empties the cell at `ci`.
    fn clear_at(cells: &mut Vec<StorageCell<'a, T>>, ci: usize)
        requires
            cells_ok(old(cells)@),
            ci < old(cells)@.len(),
        ensures
            final(cells)@ == old(cells)@.update(ci as int, final(cells)@[ci as int]),
            cells_ok(final(cells)@),
            final(cells)@[ci as int].entries().len() == 0,
            same_layout(old(cells)@, final(cells)@),
    {
        let ghost before = cells@;
        assert(before[ci as int].wf());
        cells[ci].clear();
        proof {
            lemma_cells_update(before, ci as int, cells@[ci as int]);
            assert(cells@ =~= before.update(ci as int, cells@[ci as int]));
        }
    }

    /// Puts distinct entries in the order of their units' identities.
    fn order_units(v: Vec<StoredItem<'a, T>>) -> (r: Vec<StoredItem<'a, T>>)
        requires
            unique_keys(v@),
            positive_counts(v@),
        ensures
            unique_keys(r@),
            positive_counts(r@),
            identity_sorted(r@),
            r@.len() == v@.len(),
            forall|k: UnitKey| #[trigger] qty_in(r@, k) == qty_in(v@, k),
    {
        let ghost all = v@;
        let mut input = v;
        let mut out: Vec<StoredItem<'a, T>> = Vec::new();
        proof {
            assert forall|k: UnitKey| #[trigger] qty_in(out@, k) == 0 by {
                lemma_sum_zero(out@, entry_qty::<T>(k));
            }
        }
        while input.len() > 0
            invariant
                unique_keys(out@),
                unique_keys(input@),
                positive_counts(out@),
                positive_counts(input@),
                identity_sorted(out@),
                forall|a: int, b: int| 0 <= a < out@.len() && 0 <= b < input@.len()
                    ==> #[trigger] out@[a].key() != #[trigger] input@[b].key(),
                out@.len() + input@.len() == all.len(),
                forall|k: UnitKey| #[trigger] qty_in(all, k) == qty_in(out@, k) + qty_in(input@, k),
            decreases input@.len(),
        {
            let ghost in0 = input@;
            let ghost out0 = out@;
            let e = input.remove(0);
            let mut pos: usize = 0;
            while pos < out.len() && out[pos].item.precedes(e.item)
                invariant
                    pos <= out@.len(),
                    forall|a: int| 0 <= a < pos ==> key_lt(#[trigger] out@[a].key(), e.key()),
                decreases out@.len() - pos,
            {
                pos = pos + 1;
            }
            out.insert(pos, e);
            proof {
                assert(in0[0] == e);
                assert(input@ =~= in0.remove(0));
                assert(out@ =~= out0.insert(pos as int, e));
                assert forall|k: UnitKey| #[trigger] qty_in(all, k) == qty_in(out@, k) + qty_in(input@, k) by {
                    lemma_sum_remove(in0, 0, entry_qty::<T>(k));
                    lemma_sum_insert(out0, pos as int, e, entry_qty::<T>(k));
                }
                assert forall|a: int| 0 <= a < input@.len() implies (#[trigger] input@[a]) == in0[a + 1] by {}
                assert forall|a: int| 0 <= a < out@.len() implies (#[trigger] out@[a]) == if a < pos {
                    out0[a]
                } else if a == pos {
                    e
                } else {
                    out0[a - 1]
                } by {}
                assert forall|a: int, b: int| 0 <= a < b < input@.len() implies #[trigger] input@[a].key() != #[trigger] input@[b].key() by {
                    assert(in0[a + 1].key() != in0[b + 1].key());
                }
                assert forall|a: int| 0 <= a < input@.len() implies #[trigger] input@[a].count > 0 by {
                    assert(in0[a + 1].count > 0);
                }
                assert forall|a: int| 0 <= a < out@.len() implies #[trigger] out@[a].count > 0 by {
                    if a < pos {
                        assert(out0[a].count > 0);
                    } else if a > pos {
                        assert(out0[a - 1].count > 0);
                    }
                }
                assert forall|a: int, b: int| 0 <= a < b < out@.len() implies #[trigger] out@[a].key() != #[trigger] out@[b].key() by {
                    if a < pos && b < pos {
                        assert(out0[a].key() != out0[b].key());
                    } else if a < pos && b == pos {
                        assert(out0[a].key() != in0[0].key());
                    } else if a < pos {
                        assert(out0[a].key() != out0[b - 1].key());
                    } else if a == pos {
                        assert(out0[b - 1].key() != in0[0].key());
                    } else {
                        assert(out0[a - 1].key() != out0[b - 1].key());
                    }
                }
                assert forall|a: int, b: int| 0 <= a < b < out@.len() implies key_lt(#[trigger] out@[a].key(), #[trigger] out@[b].key()) by {
                    if b < pos {
                        assert(key_lt(out0[a].key(), out0[b].key()));
                    } else if b == pos {
                    } else if a < pos {
                        assert(key_lt(out0[a].key(), out0[b - 1].key()));
                    } else if a == pos {
                        let x = out0[pos as int].key();
                        assert(x != e.key()) by {
                            assert(out0[pos as int].key() != in0[0].key());
                        }
                        lemma_key_lt_order(x, e.key(), x);
                        assert(key_lt(e.key(), x));
                        if b - 1 > pos {
                            assert(key_lt(x, out0[b - 1].key()));
                            lemma_key_lt_order(e.key(), x, out0[b - 1].key());
                        }
                    } else {
                        assert(key_lt(out0[a - 1].key(), out0[b - 1].key()));
                    }
                }
                assert forall|a: int, b: int| 0 <= a < out@.len() && 0 <= b < input@.len()
                    implies #[trigger] out@[a].key() != #[trigger] input@[b].key() by {
                    if a < pos {
                        assert(out0[a].key() != in0[b + 1].key());
                    } else if a == pos {
                        assert(in0[0].key() != in0[b + 1].key());
                    } else {
                        assert(out0[a - 1].key() != in0[b + 1].key());
                    }
                }
            }
        }
        proof {
            assert forall|k: UnitKey| #[trigger] qty_in(input@, k) == 0 by {
                lemma_sum_zero(input@, entry_qty::<T>(k));
            }
        }
        out
    }

    /// Repacks the grid: takes the totals of every unit, empties every cell
    /// and both caches, and places the totals again, in the order of the
    /// units' identities, each filling the cells in priority order. Returns, per
    /// unit, the quantity that found no room again.
    pub fn sort(&mut self) -> (leftover: Vec<StoredItem<'a, T>>)
        requires
            old(self).wf(),
        ensures
            final(self).wf(),
            final(self).cells().len() == old(self).cells().len(),
            forall|i: int| 0 <= i < leftover@.len() ==> 0 <= (#[trigger] leftover@[i]).count,
            forall|k: UnitKey| #[trigger] final(self).total(k) + qty_in(leftover@, k) == old(self).total(k),
            (forall|i: int| 0 <= i < leftover@.len() ==> (#[trigger] leftover@[i]).count == 0)
                ==> forall|k: UnitKey| #[trigger] final(self).total(k) == old(self).total(k),
            forall|i: int, c: int| 0 <= i < leftover@.len() && 0 <= c < final(self).cells().len() && (#[trigger] leftover@[i]).count > 0
                ==> (#[trigger] final(self).cells()[c]).room(leftover@[i].key(), 1) == 0,
            same_layout(old(self).cells(), final(self).cells()),
            forall|k: UnitKey, i: int, j: int|
                0 <= j < i < final(self).cells().len() && #[trigger] final(self).cells()[i].holds(k)
                    ==> #[trigger] final(self).cells()[j].room(k, 1) == 0,
            exists|snap: Seq<StoredItem<'a, T>>|
                #[trigger] identity_sorted(snap) && unique_keys(snap) && positive_counts(snap)
                    && snap.len() == leftover@.len()
                    && (forall|k: UnitKey| #[trigger] qty_in(snap, k) == old(self).total(k))
                    && entries_of(final(self).cells()) == batch_fill(
                        empty_layout(old(self).cells().len()),
                        types_of(old(self).cells()),
                        snap,
                        no_locations(),
                    )
                    && (forall|i: int| 0 <= i < snap.len() ==> (#[trigger] leftover@[i]).item == snap[i].item
                        && leftover@[i].count == route(
                            batch_fill(
                                empty_layout(old(self).cells().len()),
                                types_of(old(self).cells()),
                                snap.take(i),
                                no_locations(),
                            ),
                            types_of(old(self).cells()),
                            snap[i],
                            Seq::<usize>::empty(),
                        ).1),
    {
        let ghost g0 = *self;
        let mut snapshot: Vec<StoredItem<'a, T>> = Vec::new();
        let mut i: usize = 0;
        while i < self.stored_items_cache.len()
            invariant
                *self == g0,
                i <= g0.stored_items_cache@.len(),
                snapshot@.len() == i,
                forall|j: int| 0 <= j < i ==> (#[trigger] snapshot@[j]).item == g0.stored_items_cache@[j].item
                    && snapshot@[j].count == g0.stored_items_cache@[j].count,
            decreases g0.stored_items_cache@.len() - i,
        {
            snapshot.push(StoredItem { item: self.stored_items_cache[i].item, count: self.stored_items_cache[i].count });
            i = i + 1;
        }
        proof {
            assert forall|k: UnitKey| #[trigger] qty_in(snapshot@, k) == g0.total(k) by {
                assert forall|j: int| 0 <= j < snapshot@.len() implies entry_qty::<T>(k)(#[trigger] snapshot@[j]) == entry_qty::<T>(k)(#[trigger] g0.stored_items_cache@[j]) by {}
                lemma_sum_pointwise(snapshot@, g0.stored_items_cache@, entry_qty::<T>(k), entry_qty::<T>(k));
                assert(qty_in(g0.stored_items_cache@, k) == g0.total(k));
            }
            assert forall|j: int| 0 <= j < snapshot@.len() implies (#[trigger] snapshot@[j]).count > 0 by {
                assert(g0.stored_items_cache@[j].count > 0);
            }
            assert(unique_keys(snapshot@)) by {
                assert forall|a: int, b: int| 0 <= a < b < snapshot@.len() implies #[trigger] snapshot@[a].key() != #[trigger] snapshot@[b].key() by {
                    assert(g0.stored_items_cache@[a].key() != g0.stored_items_cache@[b].key());
                }
            }
        }
        let snapshot = Self::order_units(snapshot);
        let n = self.storage_cells.len();
        let mut ci: usize = 0;
        while ci < n
            invariant
                cells_ok(self.cells()),
                self.cells().len() == n,
                ci <= n,
                forall|j: int| 0 <= j < ci ==> (#[trigger] self.cells()[j]).entries().len() == 0,
                same_layout(g0.cells(), self.cells()),
            decreases n - ci,
        {
            let ghost before = self.cells();
            Self::clear_at(&mut self.storage_cells, ci);
            proof {
                assert forall|j: int| 0 <= j < ci implies (#[trigger] self.cells()[j]) == before[j] by {}
            }
            ci = ci + 1;
        }
        self.stored_items_cache = Vec::new();
        self.stored_items_priority_cache = Vec::new();
        proof {
            assert forall|c: int, k: UnitKey| 0 <= c < self.cells().len() implies #[trigger] self.cells()[c].qty(k) == 0 by {
                lemma_qty_unique(self.cells()[c].entries(), k);
            }
            assert forall|k: UnitKey| #[trigger] self.total(k) == 0 by {
                assert forall|j: int| 0 <= j < self.cells().len() implies (#[trigger] cell_qty::<T>(k)(self.cells()[j])) == 0 by {
                    assert(self.cells()[j].qty(k) == 0);
                }
                lemma_sum_zero(self.cells(), cell_qty::<T>(k));
            }
        }
        let ghost g1 = *self;
        proof {
            assert(entries_of(g1.cells()) =~= empty_layout(n as nat)) by {
                assert forall|x: int| 0 <= x < n implies entries_of(g1.cells())[x] == empty_layout::<T>(n as nat)[x] by {
                    assert(g1.cells()[x].entries() =~= Seq::<StoredItem<'a, T>>::empty());
                }
            }
            assert(types_of(g1.cells()) =~= types_of(g0.cells())) by {
                assert forall|x: int| 0 <= x < n implies types_of(g1.cells())[x] == types_of(g0.cells())[x] by {
                    assert(g1.cells()[x].cell_type == g0.cells()[x].cell_type);
                }
            }
            assert forall|k: UnitKey| #[trigger] g1.locations_for(k) == Seq::<usize>::empty() by {}
            assert((|k: UnitKey| g1.locations_for(k)) =~= no_locations());
        }
        let rem = self.do_insert_many(&snapshot);
        let mut leftover: Vec<StoredItem<'a, T>> = Vec::new();
        let mut i: usize = 0;
        while i < snapshot.len()
            invariant
                i <= snapshot@.len(),
                rem@.len() == snapshot@.len(),
                leftover@.len() == i,
                forall|j: int| 0 <= j < snapshot@.len() ==> 0 <= #[trigger] rem@[j],
                forall|j: int| 0 <= j < i ==> 0 <= (#[trigger] leftover@[j]).count,
                forall|j: int| 0 <= j < i ==> (#[trigger] leftover@[j]).count == rem@[j] && leftover@[j].item == snapshot@[j].item,
                snapshot@.len() == rem@.len(),
                forall|k: UnitKey| #[trigger] qty_in(leftover@, k) == placed_qty(snapshot@.take(i as int), rem@.take(i as int), k),
            decreases snapshot@.len() - i,
        {
            let ghost l0 = leftover@;
            let e = StoredItem { item: snapshot[i].item, count: rem[i] };
            leftover.push(e);
            proof {
                assert(leftover@ =~= l0.push(e));
                lemma_placed_step(snapshot@, rem@.take(i as int), i as int, rem@[i as int]);
                assert(rem@.take(i as int).push(rem@[i as int]) =~= rem@.take(i + 1));
                assert forall|k: UnitKey| #[trigger] qty_in(leftover@, k) == placed_qty(snapshot@.take(i + 1), rem@.take(i + 1), k) by {
                    lemma_sum_push(l0, e, entry_qty::<T>(k));
                    assert(qty_in(l0, k) == placed_qty(snapshot@.take(i as int), rem@.take(i as int), k));
                    assert(e.key() == snapshot@[i as int].key());
                    assert(placed_qty(snapshot@.take(i + 1), rem@.take(i as int).push(rem@[i as int]), k) == placed_qty(snapshot@.take(i as int), rem@.take(i as int), k) + if snapshot@[i as int].key() == k { rem@[i as int] as int } else { 0 });
                }
            }
            i = i + 1;
        }
        proof {
            assert(snapshot@.take(snapshot@.len() as int) =~= snapshot@);
            assert(rem@.take(rem@.len() as int) =~= rem@);
        }
        let ghost mid = *self;
        self.refresh_cache();
        proof {
            assert forall|i: int, c: int| 0 <= i < leftover@.len() && 0 <= c < self.cells().len() && (#[trigger] leftover@[i]).count > 0
                implies (#[trigger] self.cells()[c]).room(leftover@[i].key(), 1) == 0 by {
                assert(rem@[i] > 0);
                assert(mid.cells()[c].room(snapshot@[i].key(), 1) == 0);
            }
            assert forall|k: UnitKey| #[trigger] self.total(k) + qty_in(leftover@, k) == g0.total(k) by {
                assert(self.cells() == mid.cells());
                assert(g1.total(k) == 0);
                assert(mid.total(k) == g1.total(k) + qty_in(snapshot@, k) - placed_qty(snapshot@, rem@, k));
            }
            assert(self.cells() == mid.cells());
            assert(identity_sorted(snapshot@));
            assert forall|i: int| 0 <= i < snapshot@.len() implies (#[trigger] leftover@[i]).item == snapshot@[i].item
                && leftover@[i].count == route(
                    batch_fill(empty_layout(g0.cells().len()), types_of(g0.cells()), snapshot@.take(i), no_locations()),
                    types_of(g0.cells()),
                    snapshot@[i],
                    Seq::<usize>::empty(),
                ).1 by {
                assert(rem@[i] == route(
                    batch_fill(entries_of(g1.cells()), types_of(g1.cells()), snapshot@.take(i), |k: UnitKey| g1.locations_for(k)),
                    types_of(g1.cells()),
                    snapshot@[i],
                    g1.locations_for(snapshot@[i].key()),
                ).1);
            }
            if forall|i: int| 0 <= i < leftover@.len() ==> (#[trigger] leftover@[i]).count == 0 {
                assert forall|k: UnitKey| #[trigger] self.total(k) == g0.total(k) by {
                    assert forall|j: int| 0 <= j < leftover@.len() implies (#[trigger] entry_qty::<T>(k)(leftover@[j])) == 0 by {}
                    lemma_sum_zero(leftover@, entry_qty::<T>(k));
                    assert(self.total(k) + qty_in(leftover@, k) == g0.total(k));
                }
            }
        }
        leftover
    }

    /// Merges `rhs` into `self`, as `union` does, and returns the result.
    pub fn add(self, rhs: Self) -> (r: Self)
        requires
            self.wf(),
            rhs.wf(),
            unit_capacity(self.cells()) + unit_capacity(rhs.cells()) <= i32::MAX,
        ensures
            r.is_union_of(self, rhs),
            r.cells().to_multiset() == (self.cells() + rhs.cells()).to_multiset(),
            r.cells() == stable_sorted(self.cells() + rhs.cells()),
    {
        let mut grid = self;
        grid.union(rhs);
        grid
    }

    /// `self` is what merging `b` into `a` gives: a well-formed grid with the
    /// cells of both and, of every unit, the two totals together.
    pub open spec fn is_union_of(self, a: Self, b: Self) -> bool {
        &&& self.wf()
        &&& self.cells().len() == a.cells().len() + b.cells().len()
        &&& forall|k: UnitKey| #[trigger] self.total(k) == a.total(k) + b.total(k)
    }
}

/// Merging is commutative on contents: merging `b` into `a` and `a` into `b`
/// give the same total of every unit, whatever order their cells end up in.
pub proof fn lemma_union_commutative<'a, T: StoredItemType>(
    a: Grid<'a, T>,
    b: Grid<'a, T>,
    ab: Grid<'a, T>,
    ba: Grid<'a, T>,
)
    requires
        a.wf(),
        b.wf(),
        ab.is_union_of(a, b),
        ba.is_union_of(b, a),
    ensures
        forall|k: UnitKey| #[trigger] ab.total(k) == ba.total(k),
        ab.cells().len() == ba.cells().len(),
{
    assert forall|k: UnitKey| #[trigger] ab.total(k) == ba.total(k) by {
        assert(ab.total(k) == a.total(k) + b.total(k));
        assert(ba.total(k) == b.total(k) + a.total(k));
    }
}

/// The grids of a network; items are the one kind it routes so far.
pub struct GridNetwork<'a> {
    item_grid: Grid<'a, Item>,
}

impl<'a> GridNetwork<'a> {
    pub closed spec fn items(self) -> Grid<'a, Item> {
        self.item_grid
    }

    pub fn new() -> (r: Self)
        ensures
            r.items().wf(),
            r.items().cells().len() == 0,
    {
        GridNetwork { item_grid: Grid::default() }
    }
}

impl<'a, T: StoredItemType> Default for Grid<'a, T> {
    fn default() -> (r: Self)
        ensures
            r.wf(),
            r.cells().len() == 0,
    {
        let r = Grid {
            storage_cells: Vec::new(),
            stored_items_cache: Vec::new(),
            stored_items_priority_cache: Vec::new(),
        };
        proof {
            assert forall|k: UnitKey| #[trigger] qty_in(r.stored_items_cache@, k) == r.total(k) by {
                lemma_qty_unique(r.stored_items_cache@, k);
            }
        }
        r
    }
}

} // verus!