use device_registry::better_transaction_log::BetterTransactionLog;
use device_registry::transaction_log::TransactionLog;

#[test]
fn transaction_log_append() {
    let mut transaction_log = TransactionLog::new_empty();
    assert_eq!(transaction_log.length, 0);
    transaction_log.append("Siva".to_owned());
    transaction_log.append("Krishna".to_owned());
    transaction_log.append("Shambho".to_owned());
    assert_eq!(transaction_log.length, 3);
    assert_eq!(transaction_log.pop(), Some("Siva".to_owned()));
    assert_eq!(transaction_log.pop(), Some("Krishna".to_owned()));
    assert_eq!(transaction_log.pop(), Some("Shambho".to_owned()));
    assert_eq!(transaction_log.pop(), None);
}

#[test]
fn transaction_log_pop() {
    let mut list = TransactionLog::new_empty();
    assert_eq!(list.pop(), None);
    list.append("Siva".to_owned());
    list.append("Krishna".to_owned());
    list.append("Shambho".to_owned());
    assert_eq!(list.pop(), Some("Siva".to_owned()));
    assert_eq!(list.pop(), Some("Krishna".to_owned()));
    assert_eq!(list.pop(), Some("Shambho".to_owned()));
    assert_eq!(list.pop(), None);
}

#[test]
fn better_transaction_log_append() {
    let mut transaction_log = BetterTransactionLog::new_empty();
    assert_eq!(transaction_log.length, 0);
    transaction_log.append("Siva".to_owned());
    transaction_log.append("Shambho".to_owned());
    transaction_log.append("Shankara".to_owned());
    assert_eq!(transaction_log.length, 3);
    assert_eq!(transaction_log.pop(), Some("Siva".to_owned()));
    assert_eq!(transaction_log.pop(), Some("Shambho".to_owned()));
    assert_eq!(transaction_log.pop(), Some("Shankara".to_owned()));
    assert_eq!(transaction_log.pop(), None);
}

#[test]
fn better_transaction_log_pop() {
    let mut list = BetterTransactionLog::new_empty();
    assert_eq!(list.pop(), None);
    list.append("Siva".to_owned());
    list.append("Shambho".to_owned());
    list.append("Shankara".to_owned());
    assert_eq!(list.length, 3);
    assert_eq!(list.pop(), Some("Siva".to_owned()));
    assert_eq!(list.pop(), Some("Shambho".to_owned()));
    assert_eq!(list.pop(), Some("Shankara".to_owned()));
    assert_eq!(list.pop(), None);
}

#[test]
fn better_transaction_log_iterator() {
    let mut list = BetterTransactionLog::new_empty();
    assert_eq!(list.pop(), None);
    list.append("Siva".to_owned());
    list.append("Shambho".to_owned());
    list.append("Shankara".to_owned());
    let mut iter = list.clone().into_iter();
    assert_eq!(iter.next(), Some("Siva".to_owned()));
    assert_eq!(iter.next(), Some("Shambho".to_owned()));
    assert_eq!(iter.next(), Some("Shankara".to_owned()));

    let mut iter = list.clone().back_iter();
    assert_eq!(iter.next_back(), Some("Shankara".to_owned()));
    assert_eq!(iter.next_back(), Some("Shambho".to_owned()));
    assert_eq!(iter.next_back(), Some("Siva".to_owned()));
}

#[test]
fn better_transaction_log_iterator_ends() {
    let list = BetterTransactionLog::new_empty();
    let mut iter = list.iter();
    assert_eq!(iter.next(), None);
    assert_eq!(iter.next_back(), None);

    let mut list = BetterTransactionLog::new_empty();
    list.append("Siva".to_owned());
    let mut iter = list.iter();
    assert_eq!(iter.next(), Some("Siva".to_owned()));
    assert_eq!(iter.next(), None);
    let mut iter = list.back_iter();
    assert_eq!(iter.next_back(), Some("Siva".to_owned()));
    assert_eq!(iter.next_back(), None);
}
