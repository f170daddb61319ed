use storage_network::fluid::Fluid;
use storage_network::grid::Grid;
use storage_network::item::Item;
use storage_network::registry::{ItemRegistry, RegistryError};
use storage_network::storage::{
    StorageCell, StorageCellType, StoredItem, CELL_16K_BYTES, CELL_1K_BYTES, CELL_4K_BYTES,
    CELL_64K_BYTES, MAX_TYPES,
};
use storage_network::unit::{StoredItemType, StoredItemTypes};

fn numbered_items(n: usize) -> Vec<Item> {
    let mut items: Vec<Item> = vec![];
    for i in 0..n {
        items.push(Item::new(i.to_string().as_str()));
    }
    items
}

fn cache_count(grid: &Grid<Item>, item: &Item) -> i32 {
    for entry in grid.stored_items_cache.iter() {
        if entry.item.same_unit(item) {
            return entry.count;
        }
    }
    0
}

#[test]
fn test_free_space() {
    let item = Item::new("minecraft:stone");
    let stored_item = StoredItem::new(&item, 15);
    assert_eq!(StorageCell::calc_free_space(&stored_item, 8), 65);
}

#[test]
fn test_insert() {
    let cell_type = StorageCellType::new(CELL_1K_BYTES);
    let mut cell = StorageCell::new(&cell_type);
    let items = numbered_items(64);
    for i in 0..64 {
        cell.insert(StoredItem::new(&items[i], 5));
    }
    assert_eq!(cell.stored_types, 63);
    assert_eq!(cell.stored_items_count, 63 * 5);
    cell.insert(StoredItem::new(&items[0], 40960));
    assert_eq!(cell.stored_types, 63);
    assert_eq!(cell.bytes_used, 1024);
}

#[test]
fn test_grid() {
    let mut grid = Grid::default();
    let cell_type = StorageCellType::new(CELL_16K_BYTES);
    for _ in 0..3 {
        grid.insert_storage_cell(StorageCell::new(&cell_type));
    }
    let items = numbered_items(64);
    for i in 0..64 {
        assert_eq!(grid.insert(StoredItem::new(&items[i], 1024)), 0);
    }
    assert_eq!(grid.stored_items_cache.len(), items.len());
    assert_eq!(grid.take(StoredItem::new(&items[0], 5)), 5);
}

#[test]
fn test_grid_union() {
    let mut grid = Grid::default();
    let cell_type = StorageCellType::new(CELL_16K_BYTES);
    for _ in 0..3 {
        grid.insert_storage_cell(StorageCell::new(&cell_type));
    }
    let items = numbered_items(64);
    for i in 0..64 {
        assert_eq!(grid.insert(StoredItem::new(&items[i], 1024)), 0);
    }

    let mut grid2 = Grid::default();
    for _ in 0..3 {
        grid2.insert_storage_cell(StorageCell::new(&cell_type));
    }
    grid2.insert_many((0..64usize).map(|i| StoredItem::new(&items[i], 1024)).collect());
    grid = grid.add(grid2);
    grid.sort();
    assert_eq!(grid.stored_items_cache.len(), items.len());
    assert_eq!(grid.take(StoredItem::new(&items[0], 5)), 5);
}

#[test]
fn cell_type_limit_rejects_sixty_fourth_type() {
    let cell_type = StorageCellType::new(CELL_1K_BYTES);
    assert_eq!(cell_type.get_bytes_per_type(), 8);
    let mut cell = StorageCell::new(&cell_type);
    let items = numbered_items(64);
    for i in 0..63 {
        assert_eq!(cell.insert(StoredItem::new(&items[i], 5)), 5);
    }
    assert_eq!(cell.insert(StoredItem::new(&items[63], 5)), 0);
    assert_eq!(cell.stored_types, 63);
    assert_eq!(cell.bytes_used, 567);
    // 3 units of slack in the partial byte plus 457 free bytes
    assert_eq!(cell.insert(StoredItem::new(&items[0], 40960)), 3659);
    assert_eq!(cell.bytes_used, 1024);
    assert_eq!(cell.stored_types, 63);
    assert_eq!(cell.insert(StoredItem::new(&items[1], 1)), 0);
}

#[test]
fn cell_insert_returns_units_added() {
    let cell_type = StorageCellType::new(CELL_4K_BYTES);
    let mut cell = StorageCell::new(&cell_type);
    let item = Item::new("a");
    assert_eq!(cell.insert(StoredItem::new(&item, 10)), 10);
    assert_eq!(cell.insert(StoredItem::new(&item, 10)), 10);
    assert_eq!(cell.stored_items_count, 20);
    // 32 bytes of overhead and 3 bytes for 20 units
    assert_eq!(cell.bytes_used, 35);
    assert_eq!(cell.get_free_bytes(), 4096 - 35);
    assert_eq!(cell.insert(StoredItem::new(&item, 0)), 0);
    assert_eq!(cell.insert(StoredItem::new(&item, -4)), 0);
    assert_eq!(cell.stored_items_count, 20);
}

#[test]
fn cell_insert_new_type_fills_exact_budget() {
    let cell_type = StorageCellType::new(CELL_1K_BYTES);
    let mut cell = StorageCell::new(&cell_type);
    let item = Item::new("bulk");
    // 1024 - 8 bytes of overhead leave room for 8128 units
    assert_eq!(cell.insert(StoredItem::new(&item, 100000)), 8128);
    assert_eq!(cell.bytes_used, 1024);
    assert!(cell.is_full());
    assert_eq!(cell.insert(StoredItem::new(&item, 1)), 0);
}

#[test]
fn cell_take_removes_empty_entry() {
    let cell_type = StorageCellType::new(CELL_1K_BYTES);
    let mut cell = StorageCell::new(&cell_type);
    let a = Item::new("a");
    let b = Item::new("b");
    cell.insert(StoredItem::new(&a, 9));
    cell.insert(StoredItem::new(&b, 4));
    assert_eq!(cell.stored_types, 2);
    assert_eq!(cell.take(&StoredItem::new(&a, 4)), 4);
    assert_eq!(cell.stored_types, 2);
    assert_eq!(cell.take(&StoredItem::new(&a, 100)), 5);
    assert_eq!(cell.stored_types, 1);
    assert_eq!(cell.bytes_used, 9);
    assert_eq!(cell.take(&StoredItem::new(&a, 1)), 0);
    assert_eq!(cell.take(&StoredItem::new(&b, 0)), 0);
    assert_eq!(cell.stored_items_count, 4);
}

#[test]
fn cell_many_operations() {
    let cell_type = StorageCellType::new(CELL_64K_BYTES);
    let mut cell = StorageCell::new(&cell_type);
    let items = numbered_items(3);
    let batch = vec![
        StoredItem::new(&items[0], 320),
        StoredItem::new(&items[1], 7),
        StoredItem::new(&items[0], 1),
    ];
    assert_eq!(cell.insert_many(&batch), vec![320, 7, 1]);
    assert_eq!(cell.stored_items_count, 328);
    let requests = vec![StoredItem::new(&items[0], 300), StoredItem::new(&items[2], 5)];
    assert_eq!(cell.take_many(&requests), vec![300, 0]);
    assert_eq!(cell.stored_items_count, 28);
}

#[test]
fn calc_stored_bytes_sums_overhead_and_units() {
    let cell_type = StorageCellType::new(CELL_16K_BYTES);
    let items = numbered_items(2);
    let entries = vec![StoredItem::new(&items[0], 9), StoredItem::new(&items[1], 16)];
    assert_eq!(StorageCell::calc_stored_bytes(&cell_type, &entries), 128 + 2 + 128 + 2);
}

#[test]
fn grid_withdraw_reduces_aggregate() {
    let mut grid = Grid::default();
    let cell_type = StorageCellType::new(CELL_16K_BYTES);
    for _ in 0..3 {
        grid.insert_storage_cell(StorageCell::new(&cell_type));
    }
    let items = numbered_items(64);
    for i in 0..64 {
        assert_eq!(grid.insert(StoredItem::new(&items[i], 1024)), 0);
    }
    assert_eq!(grid.stored_items_cache.len(), 64);
    assert_eq!(cache_count(&grid, &items[0]), 1024);
    assert_eq!(grid.take(StoredItem::new(&items[0], 5)), 5);
    assert_eq!(cache_count(&grid, &items[0]), 1019);
    // the 64th type did not fit the first cell's type limit
    assert_eq!(grid.stored_items_priority_cache[63], vec![1]);
    assert_eq!(grid.take(StoredItem::new(&items[1], 5000)), 1024);
    assert_eq!(grid.stored_items_cache.len(), 63);
}

#[test]
fn grid_insert_spills_and_reports_remaining() {
    let mut grid = Grid::default();
    let cell_type = StorageCellType::new(CELL_1K_BYTES);
    grid.insert_storage_cell(StorageCell::new(&cell_type));
    grid.insert_storage_cell(StorageCell::new(&cell_type));
    let item = Item::new("ore");
    // each empty 1K cell takes 8128 units of one new type
    assert_eq!(grid.insert(StoredItem::new(&item, 20000)), 20000 - 2 * 8128);
    assert_eq!(cache_count(&grid, &item), 2 * 8128);
    assert_eq!(grid.stored_items_priority_cache[0], vec![0, 1]);
    // withdrawal starts from the last cell
    assert_eq!(grid.take(StoredItem::new(&item, 8128)), 8128);
    assert_eq!(grid.stored_items_priority_cache[0], vec![0]);
}

#[test]
fn grid_cells_follow_priority() {
    let mut grid = Grid::default();
    let cell_type = StorageCellType::new(CELL_1K_BYTES);
    let mut high = StorageCell::new(&cell_type);
    high.config.priority = 5;
    let low = StorageCell::new(&StorageCellType::new(CELL_4K_BYTES));
    grid.insert_storage_cell(high);
    grid.insert_storage_cell(low);
    assert_eq!(grid.storage_cells[0].config.priority, 0);
    assert_eq!(grid.storage_cells[1].config.priority, 5);
    let item = Item::new("x");
    assert_eq!(grid.insert(StoredItem::new(&item, 10)), 0);
    assert_eq!(grid.storage_cells[0].stored_items_count, 10);
    assert_eq!(grid.storage_cells[1].stored_items_count, 0);
}

#[test]
fn grid_merge_then_defragment_doubles_totals() {
    let cell_type = StorageCellType::new(CELL_16K_BYTES);
    let items = numbered_items(64);
    let mut a = Grid::default();
    let mut b = Grid::default();
    for _ in 0..3 {
        a.insert_storage_cell(StorageCell::new(&cell_type));
        b.insert_storage_cell(StorageCell::new(&cell_type));
    }
    for i in 0..64 {
        assert_eq!(a.insert(StoredItem::new(&items[i], 1024)), 0);
    }
    let remaining = b.insert_many(items.iter().map(|x| StoredItem::new(x, 1024)).collect());
    assert_eq!(remaining, vec![0; 64]);
    a.union(b);
    assert_eq!(a.storage_cells.len(), 6);
    let leftover = a.sort();
    assert!(leftover.iter().all(|x| x.count == 0));
    assert_eq!(a.stored_items_cache.len(), 64);
    for item in items.iter() {
        assert_eq!(cache_count(&a, item), 2048);
    }
    assert_eq!(a.take(StoredItem::new(&items[0], 5)), 5);
    assert_eq!(cache_count(&a, &items[0]), 2043);
}

#[test]
fn merge_is_commutative_on_totals() {
    let items = numbered_items(5);
    let build = |first: usize, cells: usize| {
        let mut g = Grid::default();
        for _ in 0..cells {
            g.insert_storage_cell(StorageCell::new(&StorageCellType::new(CELL_1K_BYTES)));
        }
        for i in first..5 {
            g.insert(StoredItem::new(&items[i], 100 * (i as i32 + 1)));
        }
        g
    };
    let mut ab = build(0, 1);
    ab.union(build(2, 2));
    let mut ba = build(2, 2);
    ba.union(build(0, 1));
    assert_eq!(ab.stored_items_cache.len(), ba.stored_items_cache.len());
    for item in items.iter() {
        assert_eq!(cache_count(&ab, item), cache_count(&ba, item));
    }
    assert_eq!(cache_count(&ab, &items[3]), 800);
}

#[test]
fn defragment_keeps_totals() {
    let mut grid = Grid::default();
    for _ in 0..2 {
        grid.insert_storage_cell(StorageCell::new(&StorageCellType::new(CELL_4K_BYTES)));
    }
    let items = numbered_items(4);
    for i in 0..4 {
        grid.insert(StoredItem::new(&items[i], 50));
    }
    grid.take(StoredItem::new(&items[1], 20));
    let leftover = grid.sort();
    assert_eq!(leftover.len(), 4);
    assert!(leftover.iter().all(|x| x.count == 0));
    assert_eq!(cache_count(&grid, &items[0]), 50);
    assert_eq!(cache_count(&grid, &items[1]), 30);
}

#[test]
fn refresh_rebuilds_caches() {
    let mut grid = Grid::default();
    grid.insert_storage_cell(StorageCell::new(&StorageCellType::new(CELL_1K_BYTES)));
    grid.insert_storage_cell(StorageCell::new(&StorageCellType::new(CELL_1K_BYTES)));
    let items = numbered_items(2);
    grid.insert(StoredItem::new(&items[0], 8200));
    grid.insert(StoredItem::new(&items[1], 3));
    grid.stored_items_cache.clear();
    grid.stored_items_priority_cache.clear();
    grid.refresh_cache();
    assert_eq!(cache_count(&grid, &items[0]), 8200);
    assert_eq!(cache_count(&grid, &items[1]), 3);
    let mut independent = 0;
    for cell in grid.storage_cells.iter() {
        independent += cell.stored_items_count;
    }
    assert_eq!(independent, 8203);
}

#[test]
fn fluids_are_keyed_by_id() {
    let water = Fluid::new("water");
    let also_water = Fluid::new("water");
    let lava = Fluid::new("lava");
    assert!(water.same_unit(&also_water));
    assert!(!water.same_unit(&lava));
    assert_eq!(Fluid::stored_type(), StoredItemTypes::Fluid);
    let mut cell = StorageCell::new(&StorageCellType::new(CELL_1K_BYTES));
    cell.insert(StoredItem::new(&water, 10));
    cell.insert(StoredItem::new(&also_water, 6));
    assert_eq!(cell.stored_types, 1);
    assert_eq!(cell.stored_items_count, 16);
}

#[test]
fn items_are_keyed_by_id_and_damage() {
    let a = Item::new("minecraft:stone");
    let mut b = Item::new("minecraft:stone");
    assert_eq!(a.id, "minecraft:stone");
    assert_eq!(a.max_stack_size, 64);
    assert!(a.same_unit(&b));
    b.damage = 3;
    assert!(!a.same_unit(&b));
    assert_eq!(Item::stored_type(), StoredItemTypes::Item);
    assert_eq!(StorageCellType::new(CELL_64K_BYTES).1, MAX_TYPES);
}

#[test]
fn registry_rejects_duplicate_ids() {
    let mut registry = ItemRegistry::new();
    assert_eq!(registry.register(Item::new("minecraft:stone")), Ok(()));
    assert_eq!(registry.register(Item::new("minecraft:dirt")), Ok(()));
    assert_eq!(
        registry.register(Item::new("minecraft:stone")),
        Err(RegistryError::DuplicateKey)
    );
    assert_eq!(registry.items.len(), 2);
}

#[test]
fn stored_items_add_only_same_unit() {
    let a = Item::new("a");
    let b = Item::new("b");
    let sum = StoredItem::new(&a, 3).add(StoredItem::new(&a, 4));
    assert_eq!(sum.count, 7);
    let kept = StoredItem::new(&a, 3).add(StoredItem::new(&b, 4));
    assert_eq!(kept.count, 3);
    assert!(kept.item.same_unit(&a));
    let copy = kept.clone();
    assert_eq!(copy.count, 3);
}

#[test]
fn defragment_reports_what_no_longer_fits() {
    let x = Item::new("a");
    let mut ys: Vec<Item> = vec![];
    for i in 0..62 {
        ys.push(Item::new(format!("b{}", i).as_str()));
    }
    let mut zs: Vec<Item> = vec![];
    for i in 0..62 {
        zs.push(Item::new(format!("c{}", i).as_str()));
    }
    let mut first = StorageCell::new(&StorageCellType::new(CELL_1K_BYTES));
    first.insert(StoredItem::new(&x, 1));
    for y in ys.iter() {
        first.insert(StoredItem::new(y, 1));
    }
    let mut second = StorageCell::new(&StorageCellType::new(CELL_4K_BYTES));
    second.config.priority = 1;
    second.insert(StoredItem::new(&x, 8000));
    for z in zs.iter() {
        second.insert(StoredItem::new(z, 1));
    }
    assert_eq!(first.stored_types, 63);
    assert_eq!(second.stored_types, 63);
    let mut grid = Grid::default();
    grid.insert_storage_cell(first);
    grid.insert_storage_cell(second);
    assert_eq!(grid.stored_items_cache.len(), 125);
    // in identity order all of `a` now goes to the first cell and pushes the
    // `b`s into the second, which then runs out of type slots
    let leftover = grid.sort();
    let lost: i32 = leftover.iter().map(|e| e.count).sum();
    assert_eq!(lost, 60);
    assert_eq!(cache_count(&grid, &x), 8001);
    assert_eq!(grid.storage_cells[1].stored_types, 63);
    for (i, z) in zs.iter().enumerate() {
        let expected = if i < 2 { 1 } else { 0 };
        assert_eq!(cache_count(&grid, z), expected);
    }
}

#[test]
fn defragment_repacks_into_earlier_cells() {
    let mut grid = Grid::default();
    grid.insert_storage_cell(StorageCell::new(&StorageCellType::new(CELL_1K_BYTES)));
    grid.insert_storage_cell(StorageCell::new(&StorageCellType::new(CELL_1K_BYTES)));
    let x = Item::new("x");
    let y = Item::new("y");
    assert_eq!(grid.insert(StoredItem::new(&x, 8128)), 0);
    assert_eq!(grid.insert(StoredItem::new(&y, 10)), 0);
    assert_eq!(grid.storage_cells[1].stored_items_count, 10);
    assert_eq!(grid.take(StoredItem::new(&x, 8128)), 8128);
    let leftover = grid.sort();
    assert!(leftover.iter().all(|e| e.count == 0));
    assert_eq!(grid.storage_cells[0].stored_items_count, 10);
    assert_eq!(grid.storage_cells[1].stored_items_count, 0);
    assert_eq!(grid.stored_items_priority_cache[0], vec![0]);
}

#[test]
fn cell_take_many_runs_requests_in_turn() {
    let mut cell = StorageCell::new(&StorageCellType::new(CELL_1K_BYTES));
    let a = Item::new("a");
    cell.insert(StoredItem::new(&a, 10));
    let requests = vec![StoredItem::new(&a, 4), StoredItem::new(&a, 4), StoredItem::new(&a, 4)];
    assert_eq!(cell.take_many(&requests), vec![4, 4, 2]);
    assert_eq!(cell.stored_types, 0);
}

#[test]
fn cell_insert_many_runs_items_in_turn() {
    let mut cell = StorageCell::new(&StorageCellType::new(CELL_1K_BYTES));
    let a = Item::new("a");
    let batch = vec![StoredItem::new(&a, 10), StoredItem::new(&a, 8128)];
    assert_eq!(cell.insert_many(&batch), vec![10, 8118]);
    assert_eq!(cell.bytes_used, 1024);
}

#[test]
fn defragment_follows_identity_order() {
    let x = Item::new("x");
    let ys = numbered_items(62);
    let mut zs: Vec<Item> = vec![];
    for i in 0..62 {
        zs.push(Item::new(format!("z{}", i).as_str()));
    }
    let mut first = StorageCell::new(&StorageCellType::new(CELL_1K_BYTES));
    first.insert(StoredItem::new(&x, 1));
    for y in ys.iter() {
        first.insert(StoredItem::new(y, 1));
    }
    let mut second = StorageCell::new(&StorageCellType::new(CELL_4K_BYTES));
    second.config.priority = 1;
    second.insert(StoredItem::new(&x, 8000));
    for z in zs.iter() {
        second.insert(StoredItem::new(z, 1));
    }
    let mut grid = Grid::default();
    grid.insert_storage_cell(first);
    grid.insert_storage_cell(second);
    // the numbered items come before `x`, which comes before the `z`s
    let leftover = grid.sort();
    assert!(leftover.iter().all(|e| e.count == 0));
    assert_eq!(grid.storage_cells[0].stored_types, 63);
    assert_eq!(grid.storage_cells[0].bytes_used, 1024);
    assert_eq!(grid.storage_cells[1].stored_types, 63);
    assert_eq!(cache_count(&grid, &x), 8001);
    assert!(Item::new("b").precedes(&Item::new("ba")));
    assert!(!Item::new("b").precedes(&Item::new("a")));
}

#[test]
fn equal_priority_cells_keep_their_order() {
    let mut grid: Grid<Item> = Grid::default();
    grid.insert_storage_cell(StorageCell::new(&StorageCellType::new(CELL_1K_BYTES)));
    grid.insert_storage_cell(StorageCell::new(&StorageCellType::new(CELL_4K_BYTES)));
    let mut other: Grid<Item> = Grid::default();
    other.insert_storage_cell(StorageCell::new(&StorageCellType::new(CELL_16K_BYTES)));
    let mut early = StorageCell::new(&StorageCellType::new(CELL_64K_BYTES));
    early.config.priority = -1;
    other.insert_storage_cell(early);
    grid.union(other);
    let capacities: Vec<i32> = grid.storage_cells.iter().map(|c| c.cell_type.0).collect();
    assert_eq!(capacities, vec![65536, 1024, 4096, 16384]);
}
