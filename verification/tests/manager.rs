use chrono::{Local, NaiveDateTime, TimeZone};
use itertools::Itertools;
use warehouse::allocators::{GreedyAllocator, RoundRobinAllocator};
use warehouse::errors::ManagerError;
use warehouse::item::{Item, Quality};
use warehouse::manager::Manager;
use warehouse::slot::Slot;
use warehouse::MAX_INVENTORY_SIZE;

#[test]
fn test_manager() {
    let exp_date =
        NaiveDateTime::parse_from_str("2020-01-01 14:30:00", "%Y-%m-%d %H:%M:%S").unwrap();
    let exp_date = Local.from_local_datetime(&exp_date).unwrap(); // DateTime<Local>
    let exp_ts = exp_date.timestamp();

    // no filters, RoundRobin
    let mut manager = Manager::new(RoundRobinAllocator::default(), Vec::new());

    let item0 = Item::new(0, "Flour", 10, Quality::Normal);
    let item1 = Item::new(1, "Wood", 5, Quality::OverSized { size: 2 });
    let item2 = Item::new(
        2,
        "Glass",
        2,
        Quality::Fragile { expiration_date: exp_ts, max_row: 1 },
    );

    manager.insert_item(item0.clone()).unwrap(); // Normal
    manager.insert_item(item0.clone()).unwrap(); // Normal
    manager.insert_item(item0.clone()).unwrap(); // Normal
    manager.insert_item(item0.clone()).unwrap(); // Normal
    manager.insert_item(item1.clone()).unwrap(); // OverSized
    manager.insert_item(item0.clone()).unwrap(); // Normal
    manager.insert_item(item2.clone()).unwrap(); // Fragile
    manager.insert_item(item2.clone()).unwrap(); // Fragile
    manager.insert_item(item0.clone()).unwrap(); // Normal
    manager.insert_item(item2.clone()).unwrap(); // Fragile

    {
        let item0 = Item::new(0, "Flour", 10, Quality::Normal);
        let item1 = Item::new(1, "Wood", 5, Quality::OverSized { size: 2 });
        let item2 = Item::new(
            2,
            "Glass",
            2,
            Quality::Fragile { expiration_date: exp_ts, max_row: 1 },
        );
        let ordered = manager.ord_by_name();
        assert_eq!(ordered.len(), 10);
        assert!(&ordered[0..6].iter().all_equal());
        assert!(&ordered[0..6].iter().all(|x| *x == item0));
        assert!(&ordered[6..9].iter().all_equal());
        assert!(&ordered[6..9].iter().all(|x| *x == item2));
        assert!(&ordered[9..9].iter().all_equal());
        assert!(&ordered[9..9].iter().all(|x| *x == item1));
    }

    assert_eq!(manager.count_id(0), 6);
    assert_eq!(manager.count_id(1), 1);
    assert_eq!(manager.count_id(2), 3);

    assert_eq!(manager.count_name("Flour"), 6);
    assert_eq!(manager.count_name("Wood"), 1);
    assert_eq!(manager.count_name("Glass"), 3);

    let slot = manager.find_id(1).unwrap();
    assert_eq!(slot.len(), 1);
    let slot = slot[0];
    assert_eq!(slot, Slot::from((0, 1, 1)));

    let expired = manager.find_expired(Local::now().timestamp());
    assert_eq!(expired.len(), 3);
    assert!(expired.iter().all(|item| item == &item2));
}

#[test]
fn find_expired_returns_only_expired_fragile_items() {
    // three fragile items with a past expiry and one normal item: the query
    // returns exactly the three fragile items
    let mut manager = Manager::new(RoundRobinAllocator::default(), Vec::new());
    let past: i64 = 1_000;
    let fragile = Item::new(9, "Egg", 1, Quality::Fragile { expiration_date: past, max_row: 2 });
    manager.insert_item(fragile.clone()).unwrap();
    manager.insert_item(fragile.clone()).unwrap();
    manager.insert_item(fragile.clone()).unwrap();
    manager.insert_item(Item::new(3, "Brick", 1, Quality::Normal)).unwrap();

    let now: i64 = 2_000;
    let expired = manager.find_expired(now);
    assert_eq!(expired.len(), 3);
    assert!(expired.iter().all(|item| item == &fragile));

    // a cutoff before the expiry returns nothing
    assert_eq!(manager.find_expired(999).len(), 0);
    // a cutoff exactly at the expiry includes it
    assert_eq!(manager.find_expired(past).len(), 3);
}

#[test]
fn remove_absent_slot_is_a_silent_no_op() {
    let mut manager = Manager::new(RoundRobinAllocator::default(), Vec::new());
    manager.insert_item(Item::new(1, "A", 1, Quality::Normal)).unwrap();

    // removal at an empty coordinate changes nothing and raises nothing
    manager.remove_item(2, 2, 2);
    // removal outside the grid is also a silent no-op
    manager.remove_item(7, 0, 0);

    assert_eq!(manager.count_id(1), 1);
    assert_eq!(manager.get_item(0, 0, 0), Some(&Item::new(1, "A", 1, Quality::Normal)));
    assert_eq!(manager.ord_by_name().len(), 1);
}

#[test]
fn oversized_span_beyond_grid_fails_allocation() {
    // a span wider than the grid can never be placed, whatever the state
    let mut manager = Manager::new(GreedyAllocator {}, Vec::new());
    let result = manager.insert_item(Item::new(
        0,
        "Beam",
        1,
        Quality::OverSized { size: MAX_INVENTORY_SIZE + 1 },
    ));
    match result {
        Err(ManagerError::FailedAllocation { item, .. }) => {
            assert_eq!(item.id, 0);
        }
        _ => panic!("expected a failed allocation"),
    }
    assert_eq!(manager.count_id(0), 0);
    assert_eq!(manager.ord_by_name().len(), 0);
}

#[test]
fn full_grid_fails_allocation() {
    let mut manager = Manager::new(GreedyAllocator {}, Vec::new());
    let cells = MAX_INVENTORY_SIZE * MAX_INVENTORY_SIZE * MAX_INVENTORY_SIZE;
    for i in 0..cells {
        manager.insert_item(Item::new(i, "Box", 1, Quality::Normal)).unwrap();
    }
    let result = manager.insert_item(Item::new(99, "Box", 1, Quality::Normal));
    assert!(result.is_err_and(|err| matches!(err, ManagerError::FailedAllocation { .. })));
    assert_eq!(manager.count_name("Box"), cells);
}

#[test]
fn ordered_listing_sorts_by_name_stably() {
    let mut manager = Manager::new(RoundRobinAllocator::default(), Vec::new());
    manager.insert_item(Item::new(1, "Pear", 1, Quality::Normal)).unwrap();
    manager.insert_item(Item::new(2, "Apple", 1, Quality::Normal)).unwrap();
    manager.insert_item(Item::new(3, "Fig", 1, Quality::Normal)).unwrap();
    manager.insert_item(Item::new(4, "Apple", 2, Quality::Normal)).unwrap();

    let ordered = manager.ord_by_name();
    let names: Vec<&str> = ordered.iter().map(|it| it.name.as_str()).collect();
    assert_eq!(names, vec!["Apple", "Apple", "Fig", "Pear"]);
    // equal names keep occupancy-map (cell) order: id 2 was placed at an
    // earlier cell than id 4
    assert_eq!(ordered[0].id, 2);
    assert_eq!(ordered[1].id, 4);
}

#[test]
fn fragile_items_respect_max_row() {
    // a fragile item restricted to row 0 skips free coordinates at later rows
    let mut manager = Manager::new(RoundRobinAllocator::default(), Vec::new());
    for i in 0..(MAX_INVENTORY_SIZE * MAX_INVENTORY_SIZE) {
        manager.insert_item(Item::new(i, "Filler", 1, Quality::Normal)).unwrap();
    }
    // row 0 is now full; a fragile item bound to row 0 cannot be placed
    let result = manager.insert_item(Item::new(
        50,
        "Vase",
        1,
        Quality::Fragile { expiration_date: 0, max_row: 0 },
    ));
    assert!(result.is_err_and(|err| matches!(err, ManagerError::FailedAllocation { .. })));

    // with one slot of row 0 reopened, the fragile item lands exactly there
    manager.remove_item(0, 1, 1);
    // the round-robin cursor reset on the failed search, so it rescans from
    // the origin and finds the reopened coordinate
    manager
        .insert_item(Item::new(
            50,
            "Vase",
            1,
            Quality::Fragile { expiration_date: 0, max_row: 0 },
        ))
        .unwrap();
    assert_eq!(
        manager.get_item(0, 1, 1),
        Some(&Item::new(
            50,
            "Vase",
            1,
            Quality::Fragile { expiration_date: 0, max_row: 0 }
        ))
    );
}

#[test]
fn insert_stamps_the_committed_item() {
    let mut manager = Manager::new(RoundRobinAllocator::default(), Vec::new());
    let item = Item::new(1, "A", 1, Quality::Normal);
    assert!(item.timestamp.is_none());
    manager.insert_item(item).unwrap();
    let stored = manager.get_item(0, 0, 0).unwrap();
    assert!(stored.timestamp.is_some());
}

#[test]
fn slot_accessors() {
    let slot = Slot::new(1, 2, 0);
    assert_eq!(slot.as_tuple(), (1, 2, 0));
    assert_eq!(slot.as_array(), [1, 2, 0]);
    assert_eq!(slot.distance(), 3);
    assert_eq!(Slot::from((1, 2, 0)), slot);
    assert_eq!(Slot::from([1, 2, 0]), slot);
    assert_eq!(Slot::from_linear_index(slot.linear_index()), slot);
}
