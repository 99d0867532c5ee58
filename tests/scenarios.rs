use sharded_slab::{Config, DefaultParams, Pool, Registry, Slab, POISONED};

fn tiny(pages: usize, first_page: usize) -> Config {
    Config::new(4096, pages, first_page, 0).unwrap()
}

#[test]
fn single_thread_fill() {
    let mut slab = Slab::new();
    let mut keys = Vec::new();
    for i in 0..10_000u32 {
        keys.push(slab.insert(0, i).expect("insert"));
    }
    for (i, &k) in keys.iter().enumerate() {
        let g = slab.get(k).expect("get");
        assert_eq!(slab.value(&g), Some(&(i as u32)));
        slab.release(0, g);
    }
    for (i, &k) in keys.iter().enumerate() {
        assert_eq!(slab.take(0, k), Some(i as u32));
        assert!(slab.get(k).is_none());
    }
}

#[test]
fn tiny_config_fills_and_reuses() {
    let mut slab = Slab::new_with_config(tiny(1, 2));
    let k1 = slab.insert(0, 1).expect("first");
    let k2 = slab.insert(0, 2).expect("second");
    assert_ne!(k1, k2);
    assert_eq!(slab.insert(0, 3), None);
    assert_eq!(slab.take(0, k1), Some(1));
    let k3 = slab.insert(0, 3).expect("after take");
    assert_ne!(k3, k1);
    assert_ne!(k3, k2);
    assert!(slab.get(k1).is_none());
    assert!(slab.contains(k2));
    assert!(slab.contains(k3));
}

#[test]
fn cross_thread_take() {
    let mut slab = Slab::new();
    let k1 = slab.insert(0, 1).unwrap();
    let k2 = slab.insert(0, 2).unwrap();
    let k3 = slab.insert(0, 3).unwrap();
    assert_eq!(slab.take(1, k2), Some(2));
    assert_eq!(slab.take(2, k3), Some(3));
    let g = slab.get(k1).expect("k1");
    assert_eq!(slab.value(&g), Some(&1));
    slab.release(0, g);
    assert!(slab.get(k2).is_none());
    assert!(slab.get(k3).is_none());
}

#[test]
fn removal_deferred_under_guard() {
    let mut slab = Slab::new_with_config(tiny(1, 2));
    let k = slab.insert(0, String::from("v")).unwrap();
    let g = slab.get(k).unwrap();
    assert!(slab.remove(1, k));
    assert!(slab.get(k).is_none());
    assert!(!slab.contains(k));
    assert_eq!(slab.value(&g).map(|s| s.as_str()), Some("v"));
    assert!(!slab.remove(1, k));
    slab.release(0, g);
    let other = slab.insert(0, String::from("w")).unwrap();
    let again = slab.insert(0, String::from("x")).unwrap();
    assert_ne!(again, k);
    assert_ne!(other, k);
    assert!(slab.get(k).is_none());
}

#[test]
fn remote_frees_are_reused() {
    let mut slab = Slab::new_with_config(tiny(1, 4));
    let k1 = slab.insert(0, 1).unwrap();
    let k2 = slab.insert(0, 2).unwrap();
    let k3 = slab.insert(0, 3).unwrap();
    let k4 = slab.insert(0, 4).unwrap();
    assert_eq!(slab.insert(0, 9), None);
    assert_eq!(slab.take(1, k1), Some(1));
    assert_eq!(slab.take(2, k2), Some(2));
    let k5 = slab.insert(0, 5).expect("reuses a freed slot");
    let k6 = slab.insert(0, 6).expect("reuses a freed slot");
    assert_eq!(slab.insert(0, 7), None);
    assert!(slab.get(k1).is_none());
    assert!(slab.get(k2).is_none());
    for (k, v) in [(k3, 3), (k4, 4), (k5, 5), (k6, 6)] {
        let g = slab.get(k).unwrap();
        assert_eq!(slab.value(&g), Some(&v));
        slab.release(0, g);
    }
}

#[test]
fn take_twice_and_remove_after_take() {
    let mut slab = Slab::new();
    let k = slab.insert(0, 7).unwrap();
    assert_eq!(slab.take(0, k), Some(7));
    assert_eq!(slab.take(0, k), None);
    assert!(!slab.remove(0, k));
    let k = slab.insert(0, 8).unwrap();
    assert!(slab.remove(0, k));
    assert_eq!(slab.take(0, k), None);
}

#[test]
fn taken_key_does_not_reach_next_value() {
    let mut slab = Slab::new_with_config(tiny(1, 2));
    let k1 = slab.insert(0, "a").unwrap();
    assert_eq!(slab.take(0, k1), Some("a"));
    let k2 = slab.insert(0, "b").unwrap();
    assert_ne!(k1, k2);
    assert!(slab.get(k1).is_none());
    let g = slab.get(k2).unwrap();
    assert_eq!(slab.value(&g), Some(&"b"));
    slab.release(0, g);
}

#[test]
fn unknown_thread_and_key() {
    let mut slab: Slab<u8> = Slab::new();
    assert_eq!(slab.insert(POISONED, 1), None);
    assert_eq!(slab.insert(4096, 1), None);
    assert!(slab.get(12345).is_none());
    assert!(!slab.contains(12345));
    assert!(!slab.remove(0, 12345));
    assert_eq!(slab.take(0, 12345), None);
}

#[test]
fn reserved_bits_are_ignored() {
    let mut slab = Slab::new_with_config(Config::new(256, 15, 32, 24).unwrap());
    let k = slab.insert(0, 42u64).unwrap();
    assert_eq!(k >> 40, 0);
    let tagged = k | (0xAB << 40);
    let g = slab.get(tagged).expect("tagged key");
    assert_eq!(slab.value(&g), Some(&42));
    slab.release(0, g);
    assert_eq!(slab.take(0, tagged), Some(42));
}

#[test]
fn keys_of_distinct_threads_differ() {
    let mut slab = Slab::new();
    let a = slab.insert(0, 'a').unwrap();
    let b = slab.insert(1, 'b').unwrap();
    assert_ne!(a, b);
    assert_eq!(slab.take(1, a), Some('a'));
    assert_eq!(slab.take(0, b), Some('b'));
}

#[test]
fn guards_count_up_and_down() {
    let mut slab = Slab::new();
    let k = slab.insert(0, 5).unwrap();
    let g1 = slab.get(k).unwrap();
    let g2 = slab.get(k).unwrap();
    assert_eq!(g1.key(), k);
    assert!(slab.remove(0, k));
    slab.release(0, g1);
    assert_eq!(slab.value(&g2), Some(&5));
    slab.release(0, g2);
    assert!(slab.get(k).is_none());
}

#[test]
fn unique_iter_lists_live_values() {
    let mut slab = Slab::new();
    slab.insert(0, 1).unwrap();
    slab.insert(1, 2).unwrap();
    let k = slab.insert(2, 3).unwrap();
    slab.insert(3, 4).unwrap();
    assert!(slab.remove(0, k));
    let mut items: Vec<i32> = slab.unique_iter().into_iter().copied().collect();
    items.sort();
    assert_eq!(items, vec![1, 2, 4]);
}

#[test]
fn config_validation() {
    assert!(Config::new(0, 1, 1, 0).is_none());
    assert!(Config::new(1, 0, 1, 0).is_none());
    assert!(Config::new(1, 1, 0, 0).is_none());
    assert!(Config::new(4096, 32, 32, 13).is_none());
    assert!(Config::new(4096, 32, 32, 12).is_some());
    assert!(Config::new(4096, 64, 32, 0).is_none());
}

#[test]
fn pool_clear_on_drop() {
    let mut pool: Pool<String> = Pool::new();
    let k = pool.create_with(0, |s: &mut String| s.push_str("hello")).unwrap();
    let r = pool.get(k).unwrap();
    assert_eq!(r.key(), k);
    assert_eq!(pool.value(&r).map(|s| s.as_str()), Some("hello"));
    pool.release(0, r);
    assert!(pool.clear(0, k));
    assert!(pool.get(k).is_none());
    assert!(!pool.clear(0, k));
    let created = pool.create(0).unwrap();
    let r = pool.get(created.key()).unwrap();
    assert_eq!(pool.value(&r).map(|s| s.as_str()), Some(""));
    pool.release(0, r);
}

#[test]
fn pool_clear_deferred_until_release() {
    let mut pool: Pool<Vec<u8>> = Pool::new_with_config(tiny(1, 2));
    let k = pool.create_with(0, |v: &mut Vec<u8>| v.extend_from_slice(&[1, 2, 3])).unwrap();
    let r = pool.get_owned(k).unwrap();
    assert_eq!(r.key(), k);
    assert!(pool.clear(1, k));
    assert!(pool.get(k).is_none());
    assert_eq!(pool.value_owned(&r).map(|v| v.len()), Some(3));
    pool.release_owned(0, r);
    let a = pool.create(0).unwrap();
    let b = pool.create(0).unwrap();
    assert!(pool.create(0).is_none());
    for key in [a.key(), b.key()] {
        let r = pool.get(key).unwrap();
        assert_eq!(pool.value(&r).map(|v| v.len()), Some(0));
        pool.release(0, r);
    }
}

#[test]
fn pool_of_options() {
    let mut pool: Pool<Option<u32>> = Pool::new();
    let k = pool.create_with(0, |o: &mut Option<u32>| *o = Some(9)).unwrap();
    let r = pool.get(k).unwrap();
    assert_eq!(pool.value(&r), Some(&Some(9)));
    pool.release(0, r);
    assert!(pool.clear(0, k));
    let again = pool.create(0).unwrap();
    let r = pool.get(again.key()).unwrap();
    assert_eq!(pool.value(&r), Some(&None));
    pool.release(0, r);
}

#[test]
fn registry_recycles_ids() {
    let mut reg = Registry::new(2);
    assert_eq!(reg.register(), Some(0));
    assert_eq!(reg.register(), Some(1));
    assert_eq!(reg.register(), None);
    reg.release(0);
    reg.release(0);
    assert_eq!(reg.register(), Some(0));
    assert_eq!(reg.register(), None);
    reg.release(7);
    assert_eq!(reg.register(), None);
}

#[test]
fn defaults_are_empty() {
    let mut slab: Slab<u8> = Slab::default();
    assert!(slab.unique_iter().is_empty());
    let k = slab.insert(0, 1).unwrap();
    assert!(slab.contains(k));
    let mut pool: Pool<Vec<u8>> = Pool::default();
    let created = pool.create(0).unwrap();
    let r = pool.get(created.key()).unwrap();
    assert_eq!(pool.value(&r).map(|v| v.len()), Some(0));
    pool.release(0, r);
}

#[test]
fn default_params_give_a_config() {
    let config = Config::from_params::<DefaultParams>().expect("default parameters fit");
    let mut slab = Slab::new_with_config(config);
    let k = slab.insert(4095, 3).unwrap();
    assert_eq!(slab.take(0, k), Some(3));
    assert_eq!(slab.insert(4096, 3), None);
}

#[test]
fn pool_modify_through_handle() {
    let mut pool: Pool<Vec<u8>> = Pool::new();
    let created = pool.create(0).unwrap();
    assert!(pool.modify(&created, |v: &mut Vec<u8>| v.push(7)));
    let r = pool.get(created.key()).unwrap();
    assert_eq!(pool.value(&r), Some(&vec![7]));
    pool.release(0, r);
    assert!(pool.clear(0, created.key()));
    assert!(!pool.modify(&created, |v: &mut Vec<u8>| v.push(8)));
}

#[test]
fn guards_are_counted() {
    let mut slab = Slab::new();
    let k = slab.insert(0, 1u8).unwrap();
    assert_eq!(slab.guards(k), 0);
    let g = slab.get(k).unwrap();
    assert_eq!(slab.guards(k), 1);
    slab.release(0, g);
    assert_eq!(slab.guards(k), 0);
}

#[test]
fn last_guard_frees_the_slot() {
    let mut slab = Slab::new_with_config(Config::new(4096, 1, 2, 0).unwrap());
    let k1 = slab.insert(0, 1).unwrap();
    let _k2 = slab.insert(0, 2).unwrap();
    assert_eq!(slab.insert(0, 3), None);
    let g = slab.get(k1).unwrap();
    assert!(slab.remove(1, k1));
    assert_eq!(slab.insert(0, 3), None);
    slab.release(1, g);
    let k3 = slab.insert(0, 3).expect("room after the last guard");
    assert_ne!(k3, k1);
}
