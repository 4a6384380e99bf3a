use device_registry::binary_search_tree::DeviceRegistry;
use device_registry::device::IoTDevice;
use device_registry::red_black_tree::BetterDeviceRegistry;

fn new_device_with_id(id: u64) -> IoTDevice {
    IoTDevice::new(id, format!("My address is {}", id))
}

#[test]
fn binary_search_tree_add() {
    let mut tree = DeviceRegistry::new_empty();
    tree.add(IoTDevice {
        numerical_id: 4,
        address: "Kasi".to_owned(),
    });
    tree.add(IoTDevice {
        numerical_id: 3,
        address: "Kailash".to_owned(),
    });
    tree.add(IoTDevice {
        numerical_id: 2,
        address: "Kedarnath".to_owned(),
    });
    tree.add(IoTDevice {
        numerical_id: 1,
        address: "Kanchi".to_owned(),
    });
    tree.add(IoTDevice {
        numerical_id: 5,
        address: "Kalahasti".to_owned(),
    });
    tree.add(IoTDevice {
        numerical_id: 6,
        address: "Palani".to_owned(),
    });
    tree.add(IoTDevice {
        numerical_id: 7,
        address: "Kanipakam".to_owned(),
    });
    assert_eq!(tree.length, 7);
}

#[test]
fn binary_search_tree_walk_in_order() {
    let city_list = [
        (5, "Kasi"),
        (4, "Kedarnath"),
        (3, "Srisailam"),
        (2, "Bodhgaya"),
        (1, "Rameswaram"),
        (6, "Ujjain"),
        (7, "Mahabaleswar"),
        (8, "Omkareshwar"),
        (9, "Grishneswar"),
        (10, "Somnath"),
    ];
    let mut tree = DeviceRegistry::new_empty();
    for item in city_list {
        tree.add(IoTDevice {
            numerical_id: item.0 as u64,
            address: item.1.to_owned(),
        });
    }

    assert_eq!(tree.length, 10);
    let v = tree.walk();
    assert_eq!(v.len(), tree.length as usize);
}

#[test]
fn binary_search_tree_find() {
    let city_list = [
        (5, "Kasi"),
        (4, "Kedarnath"),
        (3, "Srisailam"),
        (2, "Bodhgaya"),
        (1, "Rameswaram"),
        (6, "Ujjain"),
        (7, "Mahabaleswar"),
        (8, "Omkareshwar"),
        (9, "Grishneswar"),
        (10, "Somnath"),
    ];
    let mut tree = DeviceRegistry::new_empty();
    for item in city_list {
        tree.add(IoTDevice {
            numerical_id: item.0 as u64,
            address: item.1.to_owned(),
        });
    }

    assert_eq!(tree.length, 10);
    assert_eq!(tree.find(100), None);
    assert_eq!(
        tree.find(4),
        Some(IoTDevice::new(4, "Kedarnath".to_owned()))
    );
    assert_eq!(tree.find(5), Some(IoTDevice::new(5, "Kasi".to_owned())));
}

#[test]
fn red_black_tree_add() {
    let mut tree = BetterDeviceRegistry::new_empty();
    for id in 1..=7 {
        tree.add(new_device_with_id(id));
    }
    assert_eq!(tree.length, 7);
    assert!(tree.is_a_valid_red_black_tree());
}

#[test]
fn red_black_tree_walk_in_order() {
    let len: u64 = 10;

    let mut tree = BetterDeviceRegistry::new_empty();
    let shuffled_ids: [u64; 10] = [3, 7, 1, 9, 0, 5, 8, 2, 6, 4];
    let mut items: Vec<IoTDevice> = shuffled_ids
        .iter()
        .map(|id| new_device_with_id(*id))
        .collect();

    for item in items.iter() {
        tree.add(item.clone());
    }

    assert!(tree.is_a_valid_red_black_tree());
    assert_eq!(tree.length, len);
    let v = tree.walk();
    let mut items = items;
    // sort in descending order;
    items.sort_by(|a, b| b.numerical_id.cmp(&a.numerical_id));
    assert_eq!(v, items);
}

#[test]
fn red_black_tree_find() {
    let mut tree = BetterDeviceRegistry::new_empty();

    for id in [3, 2, 1, 6, 4, 5, 7] {
        tree.add(new_device_with_id(id));
    }

    assert!(tree.is_a_valid_red_black_tree());
    assert_eq!(tree.length, 7);

    assert_eq!(tree.find(100), None);
    assert_eq!(tree.find(4), Some(new_device_with_id(4)));
    assert_eq!(tree.find(3), Some(new_device_with_id(3)));
    assert_eq!(tree.find(2), Some(new_device_with_id(2)));
    assert_eq!(tree.find(1), Some(new_device_with_id(1)));
    assert_eq!(tree.find(5), Some(new_device_with_id(5)));
    assert_eq!(tree.find(6), Some(new_device_with_id(6)));
    assert_eq!(tree.find(7), Some(new_device_with_id(7)));
}

#[test]
fn red_black_tree_ascending_in_order() {
    let mut tree = BetterDeviceRegistry::new_empty();
    for id in 1..=7 {
        tree.add(new_device_with_id(id));
    }
    assert!(tree.is_a_valid_red_black_tree());
    assert_eq!(tree.length, 7);
    assert_eq!(tree.find(100), None);
    assert_eq!(tree.find(4), Some(new_device_with_id(4)));
}

#[test]
fn red_black_tree_valid_each_step() {
    let mut tree = BetterDeviceRegistry::new_empty();
    for id in [3, 2, 1, 6, 4, 5, 7] {
        tree.add(new_device_with_id(id));
        assert!(tree.is_a_valid_red_black_tree());
    }
    for id in 1..=7 {
        assert_eq!(tree.find(id), Some(new_device_with_id(id)));
    }
}

#[test]
fn red_black_tree_adversarial_sequences() {
    // Ascending and descending runs would degrade an unbalanced tree to
    // a chain; the balanced index must stay valid throughout.
    let mut ascending = BetterDeviceRegistry::new_empty();
    for id in 0..100 {
        ascending.add(new_device_with_id(id));
    }
    assert!(ascending.is_a_valid_red_black_tree());
    assert_eq!(ascending.length, 100);

    let mut descending = BetterDeviceRegistry::new_empty();
    for id in (0..100).rev() {
        descending.add(new_device_with_id(id));
    }
    assert!(descending.is_a_valid_red_black_tree());
    assert_eq!(descending.length, 100);
    for id in 0..100 {
        assert_eq!(ascending.find(id), Some(new_device_with_id(id)));
        assert_eq!(descending.find(id), Some(new_device_with_id(id)));
    }
}

#[test]
fn red_black_tree_duplicates() {
    let mut tree = BetterDeviceRegistry::new_empty();
    for _ in 0..5 {
        tree.add(new_device_with_id(42));
    }
    tree.add(new_device_with_id(1));
    tree.add(new_device_with_id(99));
    assert!(tree.is_a_valid_red_black_tree());
    assert_eq!(tree.length, 7);
    let v = tree.walk();
    assert_eq!(v.len(), 7);
    let keys: Vec<u64> = v.iter().map(|d| d.numerical_id).collect();
    assert_eq!(keys, vec![99, 42, 42, 42, 42, 42, 1]);
    assert_eq!(tree.find(42), Some(new_device_with_id(42)));
    assert_eq!(tree.find(2), None);
}

#[test]
fn binary_search_tree_walk_descending() {
    let mut tree = DeviceRegistry::new_empty();
    for id in [2, 9, 4, 7, 1] {
        tree.add(new_device_with_id(id));
    }
    let keys: Vec<u64> = tree.walk().iter().map(|d| d.numerical_id).collect();
    assert_eq!(keys, vec![9, 7, 4, 2, 1]);
    assert_eq!(tree.find(7), Some(new_device_with_id(7)));
    assert_eq!(tree.find(3), None);
}

#[test]
fn red_black_tree_empty() {
    let tree = BetterDeviceRegistry::new_empty();
    assert!(tree.is_a_valid_red_black_tree());
    assert_eq!(tree.length, 0);
    assert_eq!(tree.find(0), None);
    assert_eq!(tree.walk().len(), 0);
}
