use device_registry::dynamic_array::TimestampSaver;

#[test]
fn dynamic_array_append() {
    let mut list = TimestampSaver::new_empty();
    let max: usize = 1000;
    for i in 0..max {
        list.append(i as u64);
    }
    assert_eq!(list.length, max);
}

#[test]
fn dynamic_array_at() {
    let mut list = TimestampSaver::new_empty();
    let max: usize = 1000;
    for i in 0..max {
        list.append(i as u64);
    }
    assert_eq!(list.length, max);
    for i in 0..max {
        assert_eq!(list.at(i), Some(i as u64));
    }

    assert_eq!(list.at(max + 1), None);
}

#[test]
fn dynamic_array_iterate() {
    let mut list = TimestampSaver::new_empty();
    list.append(1);
    list.append(2);
    list.append(3);
    list.append(4);
    assert_eq!(list.length, 4);
    let mut iter = list.into_iter();
    assert_eq!(iter.next(), Some(1));
    assert_eq!(iter.next(), Some(2));
    assert_eq!(iter.next(), Some(3));
    assert_eq!(iter.next(), Some(4));
    assert_eq!(iter.next(), None);
}

#[test]
fn dynamic_array_empty_at() {
    let mut list = TimestampSaver::new_empty();
    assert_eq!(list.length, 0);
    assert_eq!(list.at(0), None);
}
