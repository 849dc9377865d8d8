use openssl::rand::rand_bytes;
use rmdb::{Rmdb, RmdbFlags, RmdbOptions, RmdbWTxn};

fn rand_val(fill: u8, maxsize: usize) -> Vec<u8> {
    let mut r = [0; 2];
    rand_bytes(&mut r).unwrap();
    let size = u16::from_le_bytes(r) as usize % maxsize;
    vec![fill; size]
}

fn add(txn: &mut RmdbWTxn, key: &[u8], value: &[u8]) {
    assert!(txn.check_add(key, value));
    txn.add_entry(key, value).unwrap();
}

fn commit(mut txn: RmdbWTxn) -> Rmdb {
    assert!(txn.check_commit());
    txn.commit().unwrap();
    txn.close()
}

fn reopen(db: Rmdb) -> Rmdb {
    Rmdb::open(db.wr.mmap).unwrap()
}

fn simple(opt: Option<RmdbOptions>) {
    let db = Rmdb::create(opt).unwrap();
    let mut txn = db.get_write_transaction().unwrap();
    let value = rand_val(b'v', 65536);
    add(&mut txn, b"test", &value);
    let found = txn.get_entry(b"test").unwrap();
    assert_eq!(found.len(), 1);
    assert_eq!(found[0], &value[..]);
    let db = commit(txn);

    let mut db = reopen(db);
    for t in [0, 2, 4, 6, 8].iter() {
        let mut txn = db.get_write_transaction().unwrap();
        add(&mut txn, format!("test{}", t).as_bytes(), format!("value{}", t).as_bytes());
        db = commit(txn);
        let read = db.get_read_transaction().unwrap();
        let found = read.get_entry(format!("test{}", t).as_bytes()).unwrap();
        assert_eq!(found[0], format!("value{}", t).as_bytes());
    }

    let read = db.get_read_transaction().unwrap();
    for t in [0, 2, 4, 6, 8].iter() {
        let found = read.get_entry(format!("test{}", t).as_bytes()).unwrap();
        assert_eq!(found.len(), 1);
        assert_eq!(found[0], format!("value{}", t).as_bytes());
    }
    assert_eq!(read.get_entry(b"test").unwrap()[0], &value[..]);

    let mut cursor = read.get_cursor().unwrap();
    cursor.set_to(b"test4").unwrap();
    assert_eq!(cursor.get_current().unwrap().0, b"test4");
    let next = cursor.get_next().unwrap();
    assert_eq!(next.0, b"test6");
    assert_eq!(next.1[0], b"value6");
}

fn load(opt: RmdbOptions, num: usize, vsize: usize, delete: bool) {
    assert!(opt.is_usable());
    let db = Rmdb::create(Some(opt)).unwrap();
    let mut txn = db.get_write_transaction().unwrap();
    let mut values: Vec<(String, Vec<u8>)> = Vec::new();
    for i in 0..num {
        let key = format!("test{}", i);
        let value = rand_val(b'v', vsize);
        add(&mut txn, key.as_bytes(), &value);
        values.push((key, value));
    }
    let db = commit(txn);

    let read = db.get_read_transaction().unwrap();
    for (key, value) in values.iter() {
        let found = read.get_entry(key.as_bytes()).unwrap();
        assert_eq!(found.len(), 1);
        assert_eq!(found[0], &value[..]);
    }

    values.sort();
    let mut cursor = read.get_cursor().unwrap();
    for (key, value) in values.iter() {
        let found = cursor.get_next().unwrap();
        assert_eq!(found.0, key.as_bytes());
        assert_eq!(found.1[0], &value[..]);
    }
    assert!(matches!(cursor.get_next(), Err(rmdb::RmdbError::KeyNotFound)));

    let db = reopen(db);
    if delete {
        let mut txn = db.get_write_transaction().unwrap();
        for i in 0..num {
            let key = format!("test{}", i);
            assert!(txn.check_del(key.as_bytes()));
            txn.del_entry(key.as_bytes()).unwrap();
            assert!(matches!(txn.get_entry(key.as_bytes()), Err(rmdb::RmdbError::KeyNotFound)));
        }
        let db = reopen(commit(txn));
        let read = db.get_read_transaction().unwrap();
        for i in 0..num {
            let key = format!("test{}", i);
            assert!(matches!(read.get_entry(key.as_bytes()), Err(rmdb::RmdbError::KeyNotFound)));
        }
    }
}

#[test]
fn main_test() {
    simple(None);

    let opt = *RmdbOptions::new().pagesize(1024).initial_size(1024 * 100).flags(RmdbFlags::empty());
    simple(Some(opt));

    let opt = *RmdbOptions::new().pagesize(256).initial_size(1024 * 4096);
    load(opt, 64, 1024, false);

    let opt = *RmdbOptions::new().pagesize(128).initial_size(128 * 64);
    load(opt, 1024, 512, true);
}

#[test]
fn growth_over_many_transactions() {
    let opt = *RmdbOptions::new().pagesize(128).initial_size(128 * 2);
    let mut db = Rmdb::create(Some(opt)).unwrap();
    for i in 0..300u32 {
        let mut txn = db.get_write_transaction().unwrap();
        let key = format!("key{:05}", (i * 7919) % 1000);
        add(&mut txn, key.as_bytes(), &vec![i as u8; (i % 90) as usize * 5]);
        db = commit(txn);
        if i % 25 == 0 {
            db = reopen(db);
        }
    }
    let read = db.get_read_transaction().unwrap();
    for i in 0..300u32 {
        let key = format!("key{:05}", (i * 7919) % 1000);
        let found = read.get_entry(key.as_bytes()).unwrap();
        assert_eq!(found[0], &vec![i as u8; (i % 90) as usize * 5][..]);
    }
}

#[test]
fn replaced_values_and_removed_keys() {
    let opt = *RmdbOptions::new().pagesize(128).initial_size(128 * 64);
    let mut db = Rmdb::create(Some(opt)).unwrap();
    for round in 0..4u8 {
        let mut txn = db.get_write_transaction().unwrap();
        for i in 0..120u32 {
            let key = format!("k{}", i);
            add(&mut txn, key.as_bytes(), &vec![round; (i as usize * 3) % 200]);
        }
        for i in 0..120u32 {
            if i % 3 == u32::from(round) % 3 {
                let key = format!("k{}", i);
                assert!(txn.check_del(key.as_bytes()));
                txn.del_entry(key.as_bytes()).unwrap();
            }
        }
        db = reopen(commit(txn));
        let read = db.get_read_transaction().unwrap();
        for i in 0..120u32 {
            let key = format!("k{}", i);
            let found = read.get_entry(key.as_bytes());
            if i % 3 == u32::from(round) % 3 {
                assert!(matches!(found, Err(rmdb::RmdbError::KeyNotFound)));
            } else {
                assert_eq!(found.unwrap()[0], &vec![round; (i as usize * 3) % 200][..]);
            }
        }
    }
}

#[test]
fn zeroed_pages() {
    let flags = RmdbFlags::from_bits(RmdbFlags::PAGE_INTEGRITY | RmdbFlags::ZERO_PAGES).unwrap();
    let opt = *RmdbOptions::new().pagesize(256).initial_size(256 * 64).flags(flags);
    load(opt, 100, 600, true);
}
