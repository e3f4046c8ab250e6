use room_relay::store::SessionsStore;

#[test]
fn ids_start_at_zero_and_increase() {
    let mut store: SessionsStore<&str> = SessionsStore::new();
    assert_eq!(store.len(), 0);
    assert_eq!(store.add_session("a"), Some(0));
    assert_eq!(store.add_session("b"), Some(1));
    assert_eq!(store.add_session("c"), Some(2));
    assert_eq!(store.len(), 3);
}

#[test]
fn live_ids_are_joined_minus_left() {
    let mut store: SessionsStore<&str> = SessionsStore::new();
    let a = store.add_session("a").unwrap();
    let b = store.add_session("b").unwrap();
    let c = store.add_session("c").unwrap();
    store.remove(b);
    let d = store.add_session("d").unwrap();
    assert_eq!(d, 3);
    assert!(store.contains(a));
    assert!(!store.contains(b));
    assert!(store.contains(c));
    assert!(store.contains(d));
    assert_eq!(store.len(), 3);
    store.remove(a);
    store.remove(d);
    assert!(!store.contains(a));
    assert!(store.contains(c));
    assert!(!store.contains(d));
    assert_eq!(store.len(), 1);
}

#[test]
fn ids_are_never_reused_after_leave() {
    let mut store: SessionsStore<u32> = SessionsStore::new();
    let mut seen: Vec<u32> = Vec::new();
    for round in 0..10u32 {
        let id = store.add_session(round).unwrap();
        assert!(!seen.contains(&id));
        seen.push(id);
        store.remove(id);
    }
    assert_eq!(seen, (0..10).collect::<Vec<u32>>());
    assert_eq!(store.len(), 0);
}

#[test]
fn self_exclusion_hello() {
    let mut store: SessionsStore<&str> = SessionsStore::new();
    let a = store.add_session("A").unwrap();
    store.add_session("B").unwrap();
    store.add_session("C").unwrap();
    let mut inbox_a: Vec<&str> = Vec::new();
    let mut inbox_b: Vec<&str> = Vec::new();
    let mut inbox_c: Vec<&str> = Vec::new();
    for recipient in store.get_sessions_except_id(a) {
        match recipient {
            "A" => inbox_a.push("hello"),
            "B" => inbox_b.push("hello"),
            "C" => inbox_c.push("hello"),
            _ => unreachable!(),
        }
    }
    assert_eq!(inbox_a, Vec::<&str>::new());
    assert_eq!(inbox_b, vec!["hello"]);
    assert_eq!(inbox_c, vec!["hello"]);
}

#[test]
fn snapshot_keeps_join_order() {
    let mut store: SessionsStore<&str> = SessionsStore::new();
    store.add_session("A").unwrap();
    let b = store.add_session("B").unwrap();
    store.add_session("C").unwrap();
    store.add_session("D").unwrap();
    assert_eq!(store.get_sessions_except_id(b), vec!["A", "C", "D"]);
    assert_eq!(store.get_sessions_except_id(99), vec!["A", "B", "C", "D"]);
}

#[test]
fn snapshot_of_lone_sender_is_empty() {
    let mut store: SessionsStore<&str> = SessionsStore::new();
    let a = store.add_session("A").unwrap();
    assert!(store.get_sessions_except_id(a).is_empty());
    let empty: SessionsStore<&str> = SessionsStore::new();
    assert!(empty.get_sessions_except_id(0).is_empty());
}

#[test]
fn leave_twice_is_a_no_op() {
    let mut store: SessionsStore<&str> = SessionsStore::new();
    let a = store.add_session("A").unwrap();
    let b = store.add_session("B").unwrap();
    store.remove(a);
    assert_eq!(store.len(), 1);
    store.remove(a);
    assert_eq!(store.len(), 1);
    assert!(store.contains(b));
    assert_eq!(store.get_sessions_except_id(a), vec!["B"]);
}

#[test]
fn leave_of_unknown_id_is_a_no_op() {
    let mut store: SessionsStore<&str> = SessionsStore::new();
    store.add_session("A").unwrap();
    store.add_session("B").unwrap();
    store.remove(7);
    assert_eq!(store.len(), 2);
    assert_eq!(store.get_sessions_except_id(7), vec!["A", "B"]);
    assert_eq!(store.add_session("C"), Some(2));
}

#[test]
fn many_joins_get_distinct_ids() {
    let mut store: SessionsStore<usize> = SessionsStore::new();
    let mut ids: Vec<u32> = Vec::new();
    for n in 0..64usize {
        ids.push(store.add_session(n).unwrap());
    }
    let mut sorted = ids.clone();
    sorted.sort();
    sorted.dedup();
    assert_eq!(sorted.len(), 64);
    assert_eq!(store.get_sessions_except_id(1000).len(), 64);
}
