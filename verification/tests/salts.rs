use mtproto_transport::salt::{Salt, SaltStore};

fn salt(id: i64, valid_since: i64, valid_until: i64) -> Salt {
    Salt { id, valid_since, valid_until }
}

#[test]
fn empty_store_has_no_current_salt() {
    let store = SaltStore::new();
    assert!(store.is_empty());
    assert_eq!(store.len(), 0);
    assert_eq!(store.pick_current(0), None);
}

#[test]
fn ingest_orders_by_window() {
    let mut store = SaltStore::new();
    store.ingest(&[salt(3, 20, 30), salt(1, 0, 10), salt(2, 10, 20), salt(4, 5, 20)]);
    assert_eq!(
        store.to_vec(),
        vec![salt(1, 0, 10), salt(4, 5, 20), salt(2, 10, 20), salt(3, 20, 30)]
    );
    assert_eq!(store.get(0), salt(1, 0, 10));
    assert_eq!(store.len(), 4);
}

#[test]
fn ingest_keeps_the_later_window_per_identifier() {
    let mut store = SaltStore::new();
    store.ingest(&[salt(1, 0, 10), salt(2, 10, 20)]);
    store.ingest(&[salt(1, 30, 40)]);
    assert_eq!(store.to_vec(), vec![salt(2, 10, 20), salt(1, 30, 40)]);
    // An older window for a known identifier changes nothing.
    store.ingest(&[salt(1, 0, 10), salt(2, 9, 20)]);
    assert_eq!(store.to_vec(), vec![salt(2, 10, 20), salt(1, 30, 40)]);
    // Same end, later start counts as later.
    store.ingest(&[salt(2, 11, 20)]);
    assert_eq!(store.to_vec(), vec![salt(2, 11, 20), salt(1, 30, 40)]);
}

#[test]
fn ingest_merges_and_does_not_replace() {
    let mut store = SaltStore::new();
    store.ingest(&[salt(1, 0, 10)]);
    store.ingest(&[salt(2, 10, 20)]);
    store.ingest(&[]);
    assert_eq!(store.to_vec(), vec![salt(1, 0, 10), salt(2, 10, 20)]);
}

#[test]
fn ingest_twice_changes_nothing() {
    let update = [salt(5, 0, 50), salt(6, 10, 60), salt(5, 5, 55), salt(7, 10, 60), salt(6, 0, 1)];
    let mut store = SaltStore::new();
    store.ingest(&[salt(1, 0, 10), salt(6, 0, 100)]);
    store.ingest(&update);
    let once = store.to_vec();
    assert_eq!(once, vec![salt(1, 0, 10), salt(5, 5, 55), salt(7, 10, 60), salt(6, 0, 100)]);
    store.ingest(&update);
    assert_eq!(store.to_vec(), once);
}

#[test]
fn restored_store_equals_ingested_store() {
    let salts = [salt(2, 10, 20), salt(1, 0, 10), salt(2, 15, 25)];
    let restored = SaltStore::from_salts(&salts);
    assert_eq!(restored.to_vec(), vec![salt(1, 0, 10), salt(2, 15, 25)]);
}

#[test]
fn pick_current_takes_latest_unexpired() {
    let store = SaltStore::from_salts(&[salt(1, 0, 10), salt(2, 10, 20), salt(3, 20, 30)]);
    assert_eq!(store.pick_current(0), Some(salt(3, 20, 30)));
    assert_eq!(store.pick_current(30), Some(salt(3, 20, 30)));
    assert_eq!(store.pick_current(31), None);
    assert_eq!(store.pick_current(i64::MAX), None);
    assert_eq!(store.pick_current(i64::MIN), Some(salt(3, 20, 30)));
}

#[test]
fn expire_before_drops_ended_windows() {
    let mut store = SaltStore::from_salts(&[salt(1, 0, 10), salt(2, 10, 20), salt(3, 20, 30)]);
    store.expire_before(10);
    assert_eq!(store.len(), 3);
    store.expire_before(11);
    assert_eq!(store.to_vec(), vec![salt(2, 10, 20), salt(3, 20, 30)]);
    store.expire_before(30);
    assert_eq!(store.to_vec(), vec![salt(3, 20, 30)]);
    assert_eq!(store.pick_current(30), Some(salt(3, 20, 30)));
    store.expire_before(31);
    assert!(store.is_empty());
    assert_eq!(store.pick_current(0), None);
    store.expire_before(100);
    assert!(store.is_empty());
}

#[test]
fn pick_after_expire_never_returns_ended_window() {
    let salts = [salt(1, 0, 10), salt(2, 10, 20), salt(3, 20, 30), salt(4, 0, 25)];
    for now in [-5i64, 0, 10, 11, 20, 25, 26, 30, 31, 99] {
        let mut store = SaltStore::from_salts(&salts);
        store.expire_before(now);
        for asked in [-5i64, 0, 15, 30, 31] {
            if let Some(picked) = store.pick_current(asked) {
                assert!(picked.valid_until >= now);
                assert!(picked.valid_until >= asked);
            }
        }
    }
}

#[test]
fn invalidate_removes_one_identifier() {
    let mut store = SaltStore::from_salts(&[salt(1, 0, 10), salt(2, 10, 20), salt(3, 20, 30)]);
    assert!(store.invalidate(3));
    assert_eq!(store.to_vec(), vec![salt(1, 0, 10), salt(2, 10, 20)]);
    assert!(!store.invalidate(3));
    assert_eq!(store.pick_current(15), Some(salt(2, 10, 20)));
    assert!(store.invalidate(1));
    assert_eq!(store.to_vec(), vec![salt(2, 10, 20)]);
}

#[test]
fn window_comparison() {
    assert!(salt(1, 0, 11).is_later_than(&salt(2, 5, 10)));
    assert!(salt(1, 6, 10).is_later_than(&salt(2, 5, 10)));
    assert!(!salt(1, 5, 10).is_later_than(&salt(2, 5, 10)));
    assert!(!salt(1, 9, 9).is_later_than(&salt(2, 5, 10)));
    assert!(salt(1, 0, 9).expired_at(10));
    assert!(!salt(1, 0, 10).expired_at(10));
}
