use h3_pool::client::{H3Client, H3ClientConfig};
use h3_pool::key::{Key, Target};
use h3_pool::pool::{Connecting, Pool, PoolClient, PoolStep, WaiterStatus};

fn key(scheme: &[u8], host: &[u8], port: Option<u16>) -> Key {
    Key { scheme: scheme.to_vec(), host: host.to_vec(), port }
}

fn example_key() -> Key {
    key(b"https", b"example.com", Some(443))
}

#[test]
fn single_flight_one_lock_shared_outcome() {
    let mut pool = Pool::new(None);
    let k = example_key();
    assert!(pool.try_pool(&k, 0).is_none());

    // First caller acquires the establishment lock.
    let lock = match pool.connecting(&k) {
        Connecting::Acquired(lock) => lock,
        Connecting::InProgress(_) => panic!("no entry existed; the lock was owed"),
    };

    // Every concurrent caller becomes a waiter, never a second lock.
    let w1 = match pool.connecting(&k) {
        Connecting::InProgress(w) => w,
        Connecting::Acquired(_) => panic!("an establishment was in flight"),
    };
    let w2 = match pool.connecting(&k) {
        Connecting::InProgress(w) => w,
        Connecting::Acquired(_) => panic!("an establishment was in flight"),
    };
    assert_eq!(pool.waiter_status(&w1), WaiterStatus::Pending);
    assert_eq!(pool.waiter_status(&w2), WaiterStatus::Pending);

    // The lock holder finishes once; everyone shares that outcome.
    let client = pool.new_connection(lock, 7, 0);
    assert_eq!(client, PoolClient { conn: 7 });
    assert_eq!(pool.waiter_status(&w1), WaiterStatus::Ready(PoolClient { conn: 7 }));
    assert_eq!(pool.waiter_status(&w2), WaiterStatus::Ready(PoolClient { conn: 7 }));
    assert_eq!(pool.try_pool(&k, 0), Some(PoolClient { conn: 7 }));
}

#[test]
fn reuse_never_reestablishes() {
    let mut pool = Pool::new(None);
    let k = example_key();
    let lock = match pool.connecting(&k) {
        Connecting::Acquired(lock) => lock,
        Connecting::InProgress(_) => panic!("no entry existed; the lock was owed"),
    };
    pool.new_connection(lock, 3, 10);

    // A second request finds the idle entry; no establishment starts.
    assert_eq!(pool.try_pool(&k, 20), Some(PoolClient { conn: 3 }));
    assert_eq!(pool.try_pool(&k, 30), Some(PoolClient { conn: 3 }));
}

#[test]
fn abandoned_establisher_fails_waiters_and_frees_key() {
    let mut pool = Pool::new(None);
    let k = example_key();
    let lock = match pool.connecting(&k) {
        Connecting::Acquired(lock) => lock,
        Connecting::InProgress(_) => panic!("no entry existed; the lock was owed"),
    };
    let w1 = match pool.connecting(&k) {
        Connecting::InProgress(w) => w,
        Connecting::Acquired(_) => panic!("an establishment was in flight"),
    };
    let w2 = match pool.connecting(&k) {
        Connecting::InProgress(w) => w,
        Connecting::Acquired(_) => panic!("an establishment was in flight"),
    };

    // The lock holder is cancelled: every waiter observes failure.
    pool.abandon(lock);
    assert_eq!(pool.waiter_status(&w1), WaiterStatus::Failed);
    assert_eq!(pool.waiter_status(&w2), WaiterStatus::Failed);
    assert!(pool.try_pool(&k, 0).is_none());

    // The key is absent again: a fresh attempt gets the lock.
    match pool.connecting(&k) {
        Connecting::Acquired(_) => {}
        Connecting::InProgress(_) => panic!("the abandoned entry must be gone"),
    }
}

#[test]
fn distinct_ports_use_distinct_entries() {
    let mut pool = Pool::new(None);
    let k1 = key(b"https", b"example.com", Some(443));
    let k2 = key(b"https", b"example.com", Some(8443));
    let lock = match pool.connecting(&k1) {
        Connecting::Acquired(lock) => lock,
        Connecting::InProgress(_) => panic!("no entry existed; the lock was owed"),
    };
    pool.new_connection(lock, 1, 0);
    assert_eq!(pool.try_pool(&k1, 0), Some(PoolClient { conn: 1 }));
    assert!(pool.try_pool(&k2, 0).is_none());
}

#[test]
fn expired_idle_entry_behaves_as_absent() {
    let mut pool = Pool::new(Some(10));
    let k = example_key();
    let lock = match pool.connecting(&k) {
        Connecting::Acquired(lock) => lock,
        Connecting::InProgress(_) => panic!("no entry existed; the lock was owed"),
    };
    pool.new_connection(lock, 9, 100);
    assert_eq!(pool.try_pool(&k, 105), Some(PoolClient { conn: 9 }));
    assert_eq!(pool.try_pool(&k, 110), Some(PoolClient { conn: 9 }));
    assert!(pool.try_pool(&k, 111).is_none());
    match pool.connecting(&k) {
        Connecting::Acquired(_) => {}
        Connecting::InProgress(_) => panic!("an expired entry must not look in flight"),
    }
}

#[test]
fn client_steps_establish_then_reuse() {
    let mut client = H3Client::new(None);
    let k = example_key();
    let lock = match client.get_pooled_client(&k, 0) {
        PoolStep::Establish(lock) => lock,
        _ => panic!("an empty pool owes the establishment lock"),
    };
    match client.get_pooled_client(&k, 0) {
        PoolStep::Await(_) => {}
        _ => panic!("a concurrent request must wait on the in-flight attempt"),
    }
    client.pool.new_connection(lock, 11, 0);
    match client.get_pooled_client(&k, 0) {
        PoolStep::Reuse(c) => assert_eq!(c, PoolClient { conn: 11 }),
        _ => panic!("a live idle entry must be reused"),
    }
}

#[test]
fn keys_resolve_independently() {
    let mut pool = Pool::new(None);
    let ka = key(b"https", b"a.example", Some(443));
    let kb = key(b"https", b"b.example", Some(443));
    let _lock_a = match pool.connecting(&ka) {
        Connecting::Acquired(lock) => lock,
        Connecting::InProgress(_) => panic!("no entry existed; the lock was owed"),
    };
    let wa = match pool.connecting(&ka) {
        Connecting::InProgress(w) => w,
        Connecting::Acquired(_) => panic!("an establishment was in flight"),
    };
    let lock_b = match pool.connecting(&kb) {
        Connecting::Acquired(lock) => lock,
        Connecting::InProgress(_) => panic!("the keys differ; a fresh lock was owed"),
    };

    // One key's failure leaves the other key's waiter untouched.
    pool.abandon(lock_b);
    assert_eq!(pool.waiter_status(&wa), WaiterStatus::Pending);
    assert!(pool.try_pool(&kb, 0).is_none());
}

#[test]
fn config_default_leaves_options_unset() {
    let cfg = H3ClientConfig::default();
    assert!(cfg.max_field_section_size.is_none());
    assert!(cfg.send_grease.is_none());
}

#[test]
fn targets_sharing_key_share_the_pool_entry() {
    let mut pool = Pool::new(None);
    let t1 = Target {
        scheme: b"https".to_vec(),
        host: Some(b"example.com".to_vec()),
        port: Some(443),
        path_and_query: b"/a?x=1".to_vec(),
    };
    let t2 = Target {
        scheme: b"https".to_vec(),
        host: Some(b"example.com".to_vec()),
        port: Some(443),
        path_and_query: b"/b/c".to_vec(),
    };
    let k1 = h3_pool::key::extract_domain(&t1).unwrap();
    let k2 = h3_pool::key::extract_domain(&t2).unwrap();
    assert!(k1.key_eq(&k2));
    let lock = match pool.connecting(&k1) {
        Connecting::Acquired(lock) => lock,
        Connecting::InProgress(_) => panic!("no entry existed; the lock was owed"),
    };
    pool.new_connection(lock, 5, 0);
    assert_eq!(pool.try_pool(&k2, 0), Some(PoolClient { conn: 5 }));
}
