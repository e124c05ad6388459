use flock::subscription_table::SubscriptionTable;

fn s(x: &str) -> String {
    x.to_string()
}

#[test]
fn insert_reports_first_subscriber_only() {
    let mut t = SubscriptionTable::new();
    assert_eq!(t.insert(&s("a"), &s("orders")), true);
    assert_eq!(t.insert(&s("a"), &s("orders")), false);
    assert_eq!(t.insert(&s("b"), &s("orders")), false);
    assert_eq!(t.insert(&s("a"), &s("trades")), true);
}

#[test]
fn remove_reports_last_subscriber_only() {
    let mut t = SubscriptionTable::new();
    t.insert(&s("a"), &s("orders"));
    t.insert(&s("b"), &s("orders"));
    assert_eq!(t.remove(&s("a"), &s("orders")), false);
    assert_eq!(t.remove(&s("b"), &s("orders")), true);
    assert_eq!(t.remove(&s("b"), &s("orders")), false);
}

#[test]
fn remove_of_absent_pair_changes_nothing() {
    let mut t = SubscriptionTable::new();
    t.insert(&s("a"), &s("orders"));
    assert_eq!(t.remove(&s("b"), &s("orders")), false);
    assert_eq!(t.get(&s("orders")), vec![s("a")]);
}

#[test]
fn get_lists_each_subscriber_once() {
    let mut t = SubscriptionTable::new();
    t.insert(&s("a"), &s("orders"));
    t.insert(&s("b"), &s("orders"));
    t.insert(&s("a"), &s("orders"));
    let got = t.get(&s("orders"));
    assert_eq!(got, vec![s("a"), s("b")]);
    assert!(t.get(&s("trades")).is_empty());
}

#[test]
fn remove_all_returns_topics_where_socket_was_sole_subscriber() {
    let mut t = SubscriptionTable::new();
    t.insert(&s("a"), &s("orders"));
    t.insert(&s("b"), &s("orders"));
    t.insert(&s("a"), &s("trades"));
    t.insert(&s("a"), &s("fills"));
    let removed = t.remove_all(&s("a"));
    // released topics come back in ascending order, fills before trades
    assert_eq!(removed, vec![s("fills"), s("trades")]);
    assert_eq!(t.get(&s("orders")), vec![s("b")]);
    assert!(t.get(&s("trades")).is_empty());
    assert!(t.get(&s("fills")).is_empty());
    let none = t.remove_all(&s("a"));
    assert!(none.is_empty());
}

#[test]
fn subscribe_unsubscribe_subscribe_round_trips() {
    let mut once = SubscriptionTable::new();
    once.insert(&s("a"), &s("orders"));

    let mut thrice = SubscriptionTable::new();
    thrice.insert(&s("a"), &s("orders"));
    thrice.remove(&s("a"), &s("orders"));
    thrice.insert(&s("a"), &s("orders"));

    assert_eq!(once.get(&s("orders")), thrice.get(&s("orders")));
    assert_eq!(once.get(&s("orders")), vec![s("a")]);
}

#[test]
fn subscribers_are_listed_in_ascending_order() {
    let mut t = SubscriptionTable::new();
    t.insert(&s("zeta"), &s("orders"));
    t.insert(&s("alpha"), &s("orders"));
    t.insert(&s("mid"), &s("orders"));
    assert_eq!(t.get(&s("orders")), vec![s("alpha"), s("mid"), s("zeta")]);
}
