use warehouse::allocators::RoundRobinAllocator;
use warehouse::errors::ManagerError;
use warehouse::filters::{BanQuality, FilterKind, LimitItemQuantity, LimitOverSized};
use warehouse::item::{Item, Quality};
use warehouse::manager::Manager;
use warehouse::MAX_INVENTORY_SIZE;

#[test]
fn test_filters() {
    let mut filters = Vec::new();
    filters.push(FilterKind::OverSizedCap(LimitOverSized::new(1)));
    filters.push(FilterKind::QuantityCap(LimitItemQuantity::new(2, 50)));
    filters.push(FilterKind::Ban(BanQuality::new(Quality::OverSized {
        size: MAX_INVENTORY_SIZE,
    })));

    let mut manager = Manager::new(RoundRobinAllocator::default(), filters);

    // LimitOverSized
    let allowed_item = Item::new(0, "A", 1, Quality::OverSized { size: 1 });

    let result = manager.insert_item(allowed_item);
    assert!(result.is_ok());

    let forbidden_item = Item::new(1, "B", 1, Quality::OverSized { size: 2 });
    let result = manager.insert_item(forbidden_item.clone());
    assert!(result.is_err_and(|err| matches!(err, ManagerError::FilteredItem { .. })));

    manager.remove_item(0, 0, 0);

    // LimitItemQuantity
    let item = Item::new(2, "C", 10, Quality::Normal);
    for _ in 0..5 {
        let result = manager.insert_item(item.clone());
        assert!(result.is_ok()); // total quantity -> 50
    }
    let item = Item::new(2, "C", 1, Quality::Normal);
    let result = manager.insert_item(item.clone());
    println!("{:#?}", manager);
    assert!(result.is_err_and(|err| matches!(err, ManagerError::FilteredItem { .. })));

    // BanQuality
    let forbidden_item = Item::new(3, "D", 1, Quality::OverSized { size: MAX_INVENTORY_SIZE });
    let result = manager.insert_item(forbidden_item.clone());
    assert!(result.is_err_and(|err| matches!(err, ManagerError::FilteredItem { .. })));
}

#[test]
fn oversized_cap_rejection_leaves_state_unchanged() {
    // one over-sized item present, cap of one: a second over-sized item is
    // rejected and the occupancy map and indices stay exactly as they were
    let filters = vec![FilterKind::OverSizedCap(LimitOverSized::new(1))];
    let mut manager = Manager::new(RoundRobinAllocator::default(), filters);

    manager
        .insert_item(Item::new(0, "Crate", 1, Quality::OverSized { size: 2 }))
        .unwrap();
    assert_eq!(manager.count_id(0), 1);

    let result = manager.insert_item(Item::new(1, "Crate2", 1, Quality::OverSized { size: 1 }));
    match result {
        Err(ManagerError::FilteredItem { item, filters }) => {
            assert_eq!(item, Item::new(1, "Crate2", 1, Quality::OverSized { size: 1 }));
            assert_eq!(filters.len(), 1);
        }
        _ => panic!("expected a filter rejection"),
    }

    // occupancy and indices unchanged
    assert_eq!(
        manager.get_item(0, 0, 0),
        Some(&Item::new(0, "Crate", 1, Quality::OverSized { size: 2 }))
    );
    assert_eq!(manager.count_id(0), 1);
    assert_eq!(manager.count_id(1), 0);
    assert_eq!(manager.count_name("Crate2"), 0);
    assert!(manager.find_id(1).is_none());
    assert_eq!(manager.ord_by_name().len(), 1);
}

#[test]
fn quantity_cap_boundary() {
    // exactly reaching the cap passes; exceeding it is rejected
    let filters = vec![FilterKind::QuantityCap(LimitItemQuantity::new(7, 10))];
    let mut manager = Manager::new(RoundRobinAllocator::default(), filters);

    assert!(manager.insert_item(Item::new(7, "Bolt", 10, Quality::Normal)).is_ok());
    let result = manager.insert_item(Item::new(7, "Bolt", 1, Quality::Normal));
    assert!(result.is_err_and(|err| matches!(err, ManagerError::FilteredItem { .. })));
    // other ids always pass the quantity cap
    assert!(manager.insert_item(Item::new(8, "Nut", 999, Quality::Normal)).is_ok());
}

#[test]
fn ban_matches_payload_exactly() {
    // the ban compares the whole category, payload included
    let filters = vec![FilterKind::Ban(BanQuality::new(Quality::OverSized { size: 2 }))];
    let mut manager = Manager::new(RoundRobinAllocator::default(), filters);

    assert!(manager
        .insert_item(Item::new(0, "A", 1, Quality::OverSized { size: 1 }))
        .is_ok());
    let result = manager.insert_item(Item::new(1, "B", 1, Quality::OverSized { size: 2 }));
    assert!(result.is_err_and(|err| matches!(err, ManagerError::FilteredItem { .. })));
}

#[test]
fn filter_chain_reconfiguration() {
    let mut manager = Manager::new(
        RoundRobinAllocator::default(),
        vec![FilterKind::Ban(BanQuality::new(Quality::Normal))],
    );
    let result = manager.insert_item(Item::new(0, "A", 1, Quality::Normal));
    assert!(result.is_err_and(|err| matches!(err, ManagerError::FilteredItem { .. })));

    // replacing the chain wholesale lifts the ban
    manager.set_filters(Vec::new());
    assert!(manager.insert_item(Item::new(0, "A", 1, Quality::Normal)).is_ok());

    // appending a filter makes the chain reject again
    manager.insert_filter(FilterKind::Ban(BanQuality::new(Quality::Normal)));
    let result = manager.insert_item(Item::new(0, "A", 1, Quality::Normal));
    assert!(result.is_err_and(|err| matches!(err, ManagerError::FilteredItem { .. })));
}
