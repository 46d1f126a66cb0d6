use cm::state::{lock_file_name, lock_file_name_for_hash, StateFile, ThreadState};
use std::collections::hash_map::DefaultHasher;
use std::hash::{Hash, Hasher};

#[test]
fn new_state_knows_no_thread() {
    let s = StateFile::new();
    assert_eq!(s.conversation_id("default"), None);
    assert!(s.list_threads().is_empty());
}

#[test]
fn stored_id_is_read_back() {
    let mut s = StateFile::new();
    s.set_conversation_id("default", "conv-1".to_string());
    assert_eq!(s.conversation_id("default"), Some("conv-1"));
    s.set_conversation_id("default", "conv-2".to_string());
    assert_eq!(s.conversation_id("default"), Some("conv-2"));
    assert_eq!(s.list_threads(), vec![("default", Some("conv-2"))]);
}

#[test]
fn threads_do_not_interfere() {
    let mut s = StateFile::new();
    s.set_conversation_id("code", "c1".to_string());
    s.set_conversation_id("brainstorm", "b1".to_string());
    s.set_conversation_id("code", "c2".to_string());
    assert_eq!(s.conversation_id("brainstorm"), Some("b1"));
    assert_eq!(s.conversation_id("code"), Some("c2"));
    s.clear("code");
    assert_eq!(s.conversation_id("code"), None);
    assert_eq!(s.conversation_id("brainstorm"), Some("b1"));
}

#[test]
fn clear_of_unknown_thread_changes_nothing() {
    let mut s = StateFile::new();
    s.set_conversation_id("a", "1".to_string());
    s.clear("b");
    assert_eq!(s.list_threads(), vec![("a", Some("1"))]);
}

#[test]
fn list_threads_is_sorted_by_name() {
    let mut s = StateFile::new();
    s.set_conversation_id("zeta", "z".to_string());
    s.set_conversation_id("alpha", "a".to_string());
    s.insert_thread("mid".to_string(), ThreadState { conversation_id: None });
    s.set_conversation_id("Beta", "b".to_string());
    s.set_conversation_id("alp", "p".to_string());
    assert_eq!(
        s.list_threads(),
        vec![
            ("Beta", Some("b")),
            ("alp", Some("p")),
            ("alpha", Some("a")),
            ("mid", None),
            ("zeta", Some("z")),
        ]
    );
}

#[test]
fn list_threads_orders_by_code_point() {
    let mut s = StateFile::new();
    s.set_conversation_id("é", "2".to_string());
    s.set_conversation_id("z", "1".to_string());
    assert_eq!(s.list_threads(), vec![("z", Some("1")), ("é", Some("2"))]);
}

#[test]
fn thread_without_id_reads_as_none() {
    let mut s = StateFile::new();
    s.insert_thread("t".to_string(), ThreadState { conversation_id: None });
    assert_eq!(s.conversation_id("t"), None);
    assert_eq!(s.list_threads(), vec![("t", None)]);
}

#[test]
fn default_state_is_empty() {
    let s = StateFile::default();
    assert!(s.list_threads().is_empty());
}

#[test]
fn lock_name_for_hash_is_sixteen_hex_digits() {
    assert_eq!(lock_file_name_for_hash(0), "0000000000000000.lock");
    assert_eq!(lock_file_name_for_hash(0xbeef), "000000000000beef.lock");
    assert_eq!(lock_file_name_for_hash(u64::MAX), "ffffffffffffffff.lock");
    assert_eq!(lock_file_name_for_hash(0x0123456789abcdef), "0123456789abcdef.lock");
}

#[test]
fn lock_name_uses_default_hasher() {
    for thread in ["default", "work", "", "ünïcode"] {
        let mut h = DefaultHasher::new();
        thread.hash(&mut h);
        let expected = format!("{:016x}.lock", h.finish());
        assert_eq!(lock_file_name(thread), expected);
    }
    assert_eq!(lock_file_name("work"), lock_file_name("work"));
    assert_ne!(lock_file_name("work"), lock_file_name("default"));
}

#[test]
fn default_thread_state_has_no_id() {
    let t = ThreadState::default();
    assert_eq!(t.conversation_id, None);
}

#[test]
fn listing_does_not_depend_on_store_order() {
    let mut a = StateFile::default();
    let mut b = StateFile::default();
    let stores = [("x", "1"), ("m", "2"), ("b", "3"), ("日本", "4")];
    for (t, id) in stores {
        a.set_conversation_id(t, id.to_string());
    }
    for (t, id) in stores.iter().rev() {
        b.set_conversation_id(t, id.to_string());
    }
    assert_eq!(a.list_threads(), b.list_threads());
}

#[test]
fn stores_in_any_order_give_the_same_listing() {
    let stores = [("a", "1"), ("b", "2"), ("c", "3")];
    let orders = [[0, 1, 2], [0, 2, 1], [1, 0, 2], [1, 2, 0], [2, 0, 1], [2, 1, 0]];
    let mut listings = Vec::new();
    for order in orders {
        let mut s = StateFile::default();
        for i in order {
            s.set_conversation_id(stores[i].0, stores[i].1.to_string());
        }
        listings.push(
            s.list_threads()
                .into_iter()
                .map(|(t, id)| (t.to_string(), id.map(|x| x.to_string())))
                .collect::<Vec<_>>(),
        );
    }
    for l in &listings {
        assert_eq!(l, &listings[0]);
    }
}
