use chrono::{Local, NaiveDateTime, TimeZone};
use warehouse::allocators::{is_slot_available, AllocStrategy, GreedyAllocator, RoundRobinAllocator, StrategyKind};
use warehouse::item::{Item, Quality};
use warehouse::manager::Manager;
use warehouse::slot::Slot;
use warehouse::MAX_INVENTORY_SIZE;

#[test]
fn test_round_robin_allocator() {
    let mut manager = Manager::new(
        RoundRobinAllocator::default(),
        Vec::new(), // no filters
    );

    let result = manager.insert_item(Item::new(
        0,
        "A",
        1,
        Quality::OverSized { size: MAX_INVENTORY_SIZE },
    ));
    assert!(result.is_ok());

    let result = manager.insert_item(Item::new(1, "B", 1, Quality::Normal));
    assert!(result.is_ok());

    let result = manager.insert_item(Item::new(2, "C", 1, Quality::Normal));
    assert!(result.is_ok());

    assert_eq!(
        manager.get_item(0, 0, 0),
        Some(&Item::new(
            0,
            "A",
            1,
            Quality::OverSized { size: MAX_INVENTORY_SIZE }
        ))
    );
    assert_eq!(
        manager.get_item(0, 1, 0),
        Some(&Item::new(1, "B", 1, Quality::Normal))
    );
    assert_eq!(
        manager.get_item(0, 1, 1),
        Some(&Item::new(2, "C", 1, Quality::Normal))
    );

    assert!(manager.allocator.prev_alloc.is_some());
    assert_eq!(manager.allocator.prev_alloc.unwrap(), Slot::from((0, 1, 1)));

    let result = manager.insert_item(Item::new(3, "D", 1, Quality::Normal));
    manager.remove_item(0, 1, 0);
    manager.remove_item(0, 1, 1);

    println!("{:#?}", &manager);
    assert!(result.is_ok());
    assert_eq!(
        manager.get_item(0, 1, 2),
        Some(&Item::new(3, "D", 1, Quality::Normal))
    );

    let result = manager.insert_item(Item::new(
        4,
        "E",
        1,
        Quality::OverSized { size: MAX_INVENTORY_SIZE + 1 },
    ));

    assert!(result.is_err()); // failed alloc -> reset prev_alloc
    assert!(manager.allocator.prev_alloc.is_none());

    let result = manager.insert_item(Item::new(5, "F", 1, Quality::OverSized { size: 2 })); // fills spot opened by the two removals

    assert!(result.is_ok());
    println!("{:#?}", &manager);
    assert_eq!(
        manager.get_item(0, 1, 0),
        Some(&Item::new(5, "F", 1, Quality::OverSized { size: 2 }))
    );
}

#[test]
fn test_greedy_allocator() {
    let mut manager = Manager::new(
        GreedyAllocator {},
        Vec::new(), // no filters
    );

    let result = manager.insert_item(Item::new(
        0,
        "A",
        1,
        Quality::OverSized { size: MAX_INVENTORY_SIZE },
    ));
    assert!(result.is_ok());

    let result = manager.insert_item(Item::new(1, "B", 1, Quality::Normal));
    assert!(result.is_ok());

    let result = manager.insert_item(Item::new(2, "C", 1, Quality::Normal));
    assert!(result.is_ok());

    assert_eq!(
        manager.get_item(0, 0, 0),
        Some(&Item::new(
            0,
            "A",
            1,
            Quality::OverSized { size: MAX_INVENTORY_SIZE }
        ))
    );
    assert_eq!(
        manager.get_item(0, 1, 0),
        Some(&Item::new(1, "B", 1, Quality::Normal))
    );
    assert_eq!(
        manager.get_item(1, 0, 0),
        Some(&Item::new(2, "C", 1, Quality::Normal))
    );

    let result = manager.insert_item(Item::new(3, "D", 1, Quality::Normal));

    assert!(result.is_ok());
    assert_eq!(
        manager.get_item(0, 2, 0),
        Some(&Item::new(3, "D", 1, Quality::Normal))
    );

    let exp_date =
        NaiveDateTime::parse_from_str("2020-01-01 14:30:00", "%Y-%m-%d %H:%M:%S").unwrap();
    let exp_date = Local.from_local_datetime(&exp_date).unwrap(); // DateTime<Local>
    let exp_ts = exp_date.timestamp();

    let result = manager.insert_item(Item::new(
        4,
        "E",
        1,
        Quality::Fragile { expiration_date: exp_ts, max_row: 1 },
    ));

    assert!(result.is_ok());
    assert_eq!(
        manager.get_item(0, 1, 1),
        Some(&Item::new(
            4,
            "E",
            1,
            Quality::Fragile { expiration_date: exp_ts, max_row: 1 }
        ))
    );

    let result = manager.insert_item(Item::new(5, "F", 1, Quality::Normal));

    assert!(result.is_ok());
    assert_eq!(
        manager.get_item(2, 0, 0),
        Some(&Item::new(5, "F", 1, Quality::Normal))
    );

    let result = manager.insert_item(Item::new(6, "G", 1, Quality::Normal));

    assert!(result.is_ok());
    assert_eq!(
        manager.get_item(1, 0, 1),
        Some(&Item::new(6, "G", 1, Quality::Normal))
    );
}

#[test]
fn round_robin_state_accessors() {
    let mut alloc = RoundRobinAllocator::default();
    assert!(alloc.get_prev_alloc().is_none());
    assert_eq!(alloc.get_start_pos(), (0, 0, 0));
    assert_eq!(alloc.kind(), StrategyKind::RoundRobin);

    alloc.set_prev_alloc(Some(Slot::new(1, 2, 0)));
    assert_eq!(alloc.get_prev_alloc().unwrap(), Slot::new(1, 2, 0));
    assert_eq!(alloc.get_start_pos(), (1, 2, 0));

    alloc.set_prev_alloc(None);
    assert!(alloc.get_prev_alloc().is_none());
}

#[test]
fn greedy_returns_nearest_anchor() {
    // the greedy search must pick an anchor of minimum Manhattan distance
    let mut manager = Manager::new(GreedyAllocator {}, Vec::new());
    assert_eq!(GreedyAllocator {}.kind(), StrategyKind::Greedy);

    manager.insert_item(Item::new(0, "A", 1, Quality::Normal)).unwrap();
    assert_eq!(
        manager.get_item(0, 0, 0),
        Some(&Item::new(0, "A", 1, Quality::Normal))
    );
    // all three distance-1 coordinates are free; one of them must be chosen
    manager.insert_item(Item::new(1, "B", 1, Quality::Normal)).unwrap();
    let found = [(0, 0, 1), (0, 1, 0), (1, 0, 0)]
        .iter()
        .filter(|(r, s, z)| manager.get_item(*r, *s, *z).is_some())
        .count();
    assert_eq!(found, 1);
}

#[test]
fn availability_rejects_overflowing_span() {
    let manager: Manager<RoundRobinAllocator> =
        Manager::new(RoundRobinAllocator::default(), Vec::new());
    let item = Item::new(0, "A", 1, Quality::OverSized { size: 2 });
    // span of two starting at the last zone would leave the grid
    let last_zone = MAX_INVENTORY_SIZE - 1;
    assert!(!is_slot_available(
        &Slot::new(0, 0, last_zone),
        &item,
        &manager.inventory
    ));
    assert!(is_slot_available(&Slot::new(0, 0, 0), &item, &manager.inventory));
}
