use rmdb::hash::compute_hash;
use rmdb::{is_database, Rmdb, RmdbCursor, RmdbError, RmdbFlags, RmdbOptions, RmdbTxnState};

fn one(flags: RmdbFlags) -> Rmdb {
    let opt = *RmdbOptions::new().pagesize(256).initial_size(256 * 64).flags(flags);
    let mut txn = Rmdb::create(Some(opt)).unwrap().get_write_transaction().unwrap();
    assert!(txn.check_add(b"near", b"a value"));
    txn.add_entry(b"near", b"a value").unwrap();
    assert!(txn.check_add(b"wide", &[5u8; 700]));
    txn.add_entry(b"wide", &[5u8; 700]).unwrap();
    assert!(txn.check_commit());
    txn.commit().unwrap();
    txn.close()
}

fn image(flags: RmdbFlags) -> Vec<u8> {
    one(flags).wr.mmap
}

fn word(img: &[u8], at: usize) -> u32 {
    u32::from_le_bytes([img[at], img[at + 1], img[at + 2], img[at + 3]])
}

fn put(img: &mut Vec<u8>, at: usize, w: u32) {
    img[at..at + 4].copy_from_slice(&w.to_le_bytes());
}

fn fault(img: Vec<u8>) -> RmdbError {
    match Rmdb::open(img) {
        Ok(_) => panic!("opened"),
        Err(e) => e,
    }
}

fn leaf_of(img: &[u8], key: &[u8]) -> usize {
    let mut p = 1;
    loop {
        let at = p * 256;
        if img[at] == 8 && &img[at + 10..at + 10 + key.len()] == key {
            return p;
        }
        p += 1;
    }
}

#[test]
fn whole_images_are_databases() {
    let mut img = image(RmdbFlags::default());
    assert!(is_database(&img));
    assert!(is_database(&image(RmdbFlags::empty())));
    assert!(is_database(&Rmdb::create(None).unwrap().wr.mmap));
    img.extend_from_slice(&[0; 256]);
    assert!(is_database(&img));
    let mut txn = Rmdb::open(img).unwrap().get_write_transaction().unwrap();
    for i in 0..500u32 {
        let key = i.to_be_bytes();
        assert!(txn.check_add(&key, &vec![1; i as usize]));
        txn.add_entry(&key, &vec![1; i as usize]).unwrap();
        if i % 50 == 0 {
            assert!(is_database(&txn.rmdb.wr.mmap));
        }
    }
    txn.commit().unwrap();
    assert!(is_database(&txn.rmdb.wr.mmap));
    assert!(!is_database(&Vec::new()));
}

#[test]
fn damaged_images_are_no_databases() {
    let whole = image(RmdbFlags::default());
    let leaf = leaf_of(&whole, b"wide");
    let first = word(&whole, leaf * 256 + 20) as usize;
    let map = word(&whole, 24) as usize;
    let root = word(&whole, 20) as usize;
    for at in [50, map * 256 + 9, root * 256 + 2, leaf * 256 + 4].iter() {
        let mut img = whole.clone();
        img[*at] ^= 4;
        assert!(!is_database(&img));
    }
    // hashes of leaves and values are looked at when they are read
    for at in [leaf * 256 + 100, first * 256 + 699].iter() {
        let mut img = whole.clone();
        img[*at] ^= 4;
        assert!(is_database(&img));
    }

    let mut img = image(RmdbFlags::empty());
    let root = word(&img, 20) as usize;
    let (a, b) = (word(&img, root * 256 + 4), word(&img, root * 256 + 8));
    put(&mut img, root * 256 + 4, b);
    assert!(!is_database(&img));
    put(&mut img, root * 256 + 8, a);
    assert!(!is_database(&img));
    put(&mut img, root * 256 + 4, a);
    put(&mut img, root * 256 + 8, b);
    assert!(is_database(&img));
    let map = word(&img, 24) as usize;
    let blocks = word(&img, map * 256 + 8);
    assert!(blocks > 0);
    put(&mut img, map * 256 + 12, a);
    assert!(!is_database(&img));
}

#[test]
fn images_that_are_no_database() {
    assert!(matches!(fault(Vec::new()), RmdbError::InvalidDBFile));
    assert!(matches!(fault(vec![0; 31]), RmdbError::IntegrityCheck));
    assert!(matches!(fault(vec![0; 4096]), RmdbError::IntegrityCheck));
}

#[test]
fn wrong_signature_or_version() {
    let mut img = image(RmdbFlags::default());
    img[3] = b'C';
    assert!(matches!(fault(img), RmdbError::IntegrityCheck));
    let mut img = image(RmdbFlags::default());
    img[4] = 2;
    assert!(matches!(fault(img), RmdbError::IntegrityCheck));
}

#[test]
fn wrong_flags_or_page_size() {
    let mut img = image(RmdbFlags::empty());
    put(&mut img, 8, 128);
    assert!(matches!(fault(img), RmdbError::InvalidDBFile));
    let mut img = image(RmdbFlags::empty());
    put(&mut img, 12, 0);
    assert!(matches!(fault(img), RmdbError::InvalidDBFile));
    let mut img = image(RmdbFlags::default());
    put(&mut img, 12, 31);
    assert!(matches!(fault(img), RmdbError::InvalidDBFile));
    let mut img = image(RmdbFlags::default());
    put(&mut img, 12, 63);
    assert!(matches!(fault(img), RmdbError::InvalidFileSize));
    let mut img = image(RmdbFlags::empty());
    img.truncate(48);
    put(&mut img, 12, 24);
    put(&mut img, 16, 100);
    assert!(matches!(fault(img.clone()), RmdbError::InvalidFileSize));
    put(&mut img, 16, 2);
    put(&mut img, 20, 0);
    assert!(matches!(fault(img.clone()), RmdbError::IntegrityCheck));
    put(&mut img, 20, 1);
    assert!(matches!(fault(img.clone()), RmdbError::IntegrityCheck));
    img[25] = 0x40;
    assert!(matches!(fault(img), RmdbError::InvalidDBFile));
}

#[test]
fn wrong_length() {
    let mut img = image(RmdbFlags::default());
    img.push(0);
    assert!(matches!(fault(img), RmdbError::InvalidFileSize));
    let mut img = image(RmdbFlags::default());
    let n = img.len() - 256;
    img.truncate(n);
    assert!(matches!(fault(img), RmdbError::InvalidFileSize));
    let mut img = image(RmdbFlags::default());
    img.extend_from_slice(&[0; 256]);
    assert!(Rmdb::open(img).is_ok());
}

#[test]
fn wrong_root() {
    let mut img = image(RmdbFlags::empty());
    put(&mut img, 20, 0);
    assert!(matches!(fault(img), RmdbError::IntegrityCheck));
    let mut img = image(RmdbFlags::empty());
    put(&mut img, 20, 1000);
    assert!(matches!(fault(img), RmdbError::InvalidDBFile));
    let mut img = image(RmdbFlags::empty());
    let leaf = leaf_of(&img, b"near") as u32;
    put(&mut img, 20, leaf);
    assert!(matches!(fault(img), RmdbError::IntegrityCheck));
}

#[test]
fn changed_bytes_of_page_0_and_root() {
    let mut img = image(RmdbFlags::default());
    img[100] ^= 1;
    assert!(matches!(fault(img), RmdbError::IntegrityCheck));
    let mut img = image(RmdbFlags::default());
    let root = word(&img, 20) as usize;
    img[root * 256 + 200] ^= 1;
    assert!(matches!(fault(img), RmdbError::IntegrityCheck));
}

#[test]
fn wrong_map_of_free_pages() {
    let mut img = image(RmdbFlags::default());
    let fp = word(&img, 24) as usize;
    img[fp * 256 + 8] ^= 1;
    assert!(matches!(fault(img), RmdbError::IntegrityCheck));
    let mut img = image(RmdbFlags::empty());
    put(&mut img, 24, 1000);
    assert!(matches!(fault(img), RmdbError::InvalidDBFile));
    let mut img = image(RmdbFlags::empty());
    let fp = word(&img, 24) as usize;
    put(&mut img, fp * 256 + 8, 0xffff_ffff);
    assert!(matches!(fault(img), RmdbError::InvalidDBFile));
}

#[test]
fn changed_leaf_is_noticed() {
    let mut img = image(RmdbFlags::default());
    let leaf = leaf_of(&img, b"near");
    img[leaf * 256 + 20] ^= 1;
    let db = Rmdb::open(img).unwrap();
    let read = db.get_read_transaction().unwrap();
    assert!(matches!(read.get_entry(b"near"), Err(RmdbError::IntegrityCheck)));
    assert_eq!(read.get_entry(b"wide").unwrap()[0], &[5u8; 700]);
}

#[test]
fn changed_value_in_other_pages_is_noticed() {
    let mut img = image(RmdbFlags::default());
    let leaf = leaf_of(&img, b"wide");
    let first = word(&img, leaf * 256 + 20) as usize;
    img[first * 256 + 300] ^= 1;
    let db = Rmdb::open(img).unwrap();
    let read = db.get_read_transaction().unwrap();
    assert!(matches!(read.get_entry(b"wide"), Err(RmdbError::IntegrityCheck)));
    let mut cursor = read.get_cursor().unwrap();
    cursor.set_to(b"wide").unwrap();
    assert!(matches!(cursor.get_current(), Err(RmdbError::IntegrityCheck)));
    assert_eq!(read.get_entry(b"near").unwrap()[0], b"a value");
}

#[test]
fn without_hashes_changes_go_unnoticed() {
    let mut img = image(RmdbFlags::empty());
    let leaf = leaf_of(&img, b"near");
    img[leaf * 256 + 18] = b'A';
    let db = Rmdb::open(img).unwrap();
    let read = db.get_read_transaction().unwrap();
    assert_eq!(read.get_entry(b"near").unwrap()[0], b"A value");
}

#[test]
fn keys_that_are_too_long() {
    let opt = *RmdbOptions::new().pagesize(128).initial_size(128 * 64);
    let mut txn = Rmdb::create(Some(opt)).unwrap().get_write_transaction().unwrap();
    assert!(txn.check_add(&[b'k'; 57], b""));
    assert!(matches!(txn.add_entry(&[b'k'; 57], b""), Err(RmdbError::InvalidDataSize)));
    assert!(!txn.check_add(&[b'k'; 57], &[0; 129]));
    assert!(!txn.check_add(&[b'k'; 56], b""));
    assert!(txn.check_add(&[b'k'; 46], b""));
    txn.add_entry(&[b'k'; 46], b"").unwrap();
    assert_eq!(txn.get_entry(&[b'k'; 46]).unwrap()[0], b"");
}

#[test]
fn keys_outside_of_the_tree() {
    let db = one(RmdbFlags::default());
    let read = db.get_read_transaction().unwrap();
    let mut cursor = read.get_cursor().unwrap();
    assert!(matches!(cursor.set_to(b"a"), Err(RmdbError::KeyTooSmall)));
    assert!(matches!(cursor.set_to(b"z"), Err(RmdbError::KeyTooBig)));
    assert!(matches!(cursor.set_to(b"o"), Err(RmdbError::KeyNotFound)));
    assert!(cursor.cursor.is_empty());
    assert!(matches!(read.get_entry(b"a"), Err(RmdbError::KeyNotFound)));
    assert!(matches!(read.get_entry(b"z"), Err(RmdbError::KeyNotFound)));
    assert!(matches!(read.get_entry(b"o"), Err(RmdbError::KeyNotFound)));
}

#[test]
fn cursor_at_a_node() {
    let db = one(RmdbFlags::default());
    let read = db.get_read_transaction().unwrap();
    let mut cursor = RmdbCursor { txn: &read, cursor: vec![db.rootpage] };
    assert!(matches!(cursor.get_current(), Err(RmdbError::PageNotLeaf)));
}

#[test]
fn cursor_in_an_empty_database() {
    let db = Rmdb::create(None).unwrap();
    let read = db.get_read_transaction().unwrap();
    let mut cursor = read.get_cursor().unwrap();
    assert!(matches!(cursor.get_next(), Err(RmdbError::InvalidMetadata)));
    assert!(matches!(cursor.get_current(), Err(RmdbError::InvalidMetadata)));
    assert!(matches!(cursor.set_to(b"k"), Err(RmdbError::KeyNotFound)));
}

#[test]
fn a_read_transaction_closes_once() {
    let db = one(RmdbFlags::default());
    let mut read = db.get_read_transaction().unwrap();
    assert_eq!(read.status, RmdbTxnState::Open);
    read.scrub().unwrap();
    assert_eq!(read.status, RmdbTxnState::Scrubbed);
    assert!(matches!(read.scrub(), Err(RmdbError::InvalidTransaction)));
}

#[test]
fn a_committed_transaction_is_not_scrubbed() {
    let mut txn = one(RmdbFlags::default()).get_write_transaction().unwrap();
    assert!(txn.check_commit());
    txn.commit().unwrap();
    assert_eq!(txn.status, RmdbTxnState::Committed);
    assert!(matches!(txn.scrub(), Err(RmdbError::InvalidTransaction)));
}

#[test]
fn a_leaf_is_checked_before_its_value_is_read() {
    let mut img = image(RmdbFlags::default());
    let at = leaf_of(&img, b"near") * 256 + 16;
    img[at] = 0xff;
    img[at + 1] = 0xff;
    let db = Rmdb::open(img).unwrap();
    let read = db.get_read_transaction().unwrap();
    assert!(matches!(read.get_entry(b"near"), Err(RmdbError::IntegrityCheck)));
    let mut img = image(RmdbFlags::empty());
    let at = leaf_of(&img, b"near") * 256 + 16;
    img[at] = 0xff;
    img[at + 1] = 0xff;
    let db = Rmdb::open(img).unwrap();
    let read = db.get_read_transaction().unwrap();
    assert!(matches!(read.get_entry(b"near"), Err(RmdbError::InvalidMetadata)));
}

#[test]
fn short_images_are_looked_at_as_far_as_they_go() {
    let head = |n: usize, ps: u32, pages: u32, root: u32| {
        let mut img = vec![0u8; 24];
        img[0..4].copy_from_slice(b"RMDB");
        put(&mut img, 4, 3);
        put(&mut img, 12, ps);
        put(&mut img, 16, pages);
        put(&mut img, 20, root);
        img.truncate(n);
        img
    };
    for n in 0..4 {
        assert!(matches!(fault(vec![0; n]), RmdbError::InvalidDBFile));
    }
    for n in 4..32 {
        assert!(matches!(fault(vec![0; n]), RmdbError::IntegrityCheck));
    }
    for n in 4..8 {
        assert!(matches!(fault(head(n, 8, 1, 1)), RmdbError::InvalidDBFile));
    }
    let mut img = head(8, 8, 1, 1);
    img[4] = 4;
    assert!(matches!(fault(img), RmdbError::IntegrityCheck));
    for n in 8..20 {
        assert!(matches!(fault(head(n, 8, 1, 1)), RmdbError::InvalidDBFile));
    }
    assert!(matches!(fault(head(20, 8, 1, 1)), RmdbError::InvalidFileSize));
    assert!(matches!(fault(head(20, 20, 2, 1)), RmdbError::InvalidFileSize));
    assert!(matches!(fault(head(20, 20, 1, 1)), RmdbError::InvalidDBFile));
    assert!(matches!(fault(head(24, 8, 4, 1)), RmdbError::InvalidFileSize));
    assert!(matches!(fault(head(24, 8, 3, 0)), RmdbError::IntegrityCheck));
    assert!(matches!(fault(head(24, 8, 3, 1)), RmdbError::IntegrityCheck));
    assert!(matches!(fault(head(24, 8, 3, 3)), RmdbError::InvalidDBFile));
    assert!(matches!(fault(head(24, 1, 3, 2)), RmdbError::InvalidDBFile));
}

#[test]
fn a_map_of_no_pages() {
    let mut img = image(RmdbFlags::default());
    put(&mut img, 28, 0);
    let hash = compute_hash(&vec![&img[0..224]]);
    img[224..256].copy_from_slice(&hash);
    assert!(matches!(fault(img.clone()), RmdbError::IntegrityCheck));
    // the hash of the map in the page before it
    let (root, fp) = (word(&img, 20) as usize, word(&img, 24) as usize);
    assert!(fp > 1 && fp - 1 != root);
    let n = word(&img, fp * 256 + 4) as usize;
    let hash = compute_hash(&vec![&img[fp * 256..fp * 256 + 8 + n]]);
    img[fp * 256 - 32..fp * 256].copy_from_slice(&hash);
    assert!(Rmdb::open(img).is_ok());
}

#[test]
fn a_node_that_counts_more_children_than_it_has_room_for() {
    let mut img = image(RmdbFlags::empty());
    let root = word(&img, 20) as usize;
    img[root * 256 + 2] = 0xff;
    img[root * 256 + 3] = 0xff;
    assert!(!is_database(&img));
    let db = Rmdb::open(img).unwrap();
    let txn = db.get_read_transaction().unwrap();
    assert_eq!(txn.get_entry(b"near").unwrap(), vec![&b"a value"[..]]);
    assert!(matches!(txn.get_entry(b"a"), Err(RmdbError::KeyNotFound)));
    assert!(matches!(txn.get_entry(b"wide"), Err(RmdbError::InvalidMetadata)));
    let mut cursor = txn.get_cursor().unwrap();
    assert!(matches!(cursor.set_to(b"a"), Err(RmdbError::KeyTooSmall)));
    assert!(matches!(cursor.set_to(b"wide"), Err(RmdbError::InvalidMetadata)));
    assert_eq!(cursor.cursor.len(), 0);
    assert_eq!(cursor.get_next().unwrap().0, b"near");
    assert_eq!(cursor.get_current().unwrap().0, b"near");
    let (key, val) = cursor.get_next().unwrap();
    assert_eq!((key, val[0]), (&b"wide"[..], &[5u8; 700][..]));
    assert!(matches!(cursor.get_next(), Err(RmdbError::InvalidMetadata)));
    let (key, val) = cursor.get_current().unwrap();
    assert_eq!((key, val[0]), (&b"wide"[..], &[5u8; 700][..]));
    cursor.set_to(b"near").unwrap();
    assert_eq!(cursor.cursor, vec![root as u32, leaf_of(&db.wr.mmap, b"near") as u32]);
}

#[test]
fn a_cursor_on_a_tree_that_leads_into_itself() {
    let mut img = image(RmdbFlags::empty());
    let root = word(&img, 20);
    // the second child of the root is the root
    put(&mut img, root as usize * 256 + 8, root);
    assert!(!is_database(&img));
    let db = Rmdb::open(img).unwrap();
    let txn = db.get_read_transaction().unwrap();
    let mut cursor = txn.get_cursor().unwrap();
    for i in 0..200 {
        assert_eq!(cursor.get_next().unwrap().0, b"near");
        assert_eq!(cursor.get_current().unwrap().0, b"near");
        assert_eq!(cursor.cursor.len(), i + 2);
    }
    // and now the first
    let mut img = db.wr.mmap.clone();
    put(&mut img, root as usize * 256 + 4, root);
    let db = Rmdb::open(img).unwrap();
    let txn = db.get_read_transaction().unwrap();
    let mut cursor = txn.get_cursor().unwrap();
    assert!(matches!(cursor.get_next(), Err(RmdbError::InvalidMetadata)));
    assert!(matches!(txn.get_entry(b"near"), Err(RmdbError::InvalidMetadata)));
}

#[test]
fn a_database_with_damaged_values_can_be_written() {
    let mut img = image(RmdbFlags::default());
    let first = word(&img, leaf_of(&img, b"wide") * 256 + 20) as usize;
    img[first * 256 + 300] ^= 1;
    let near = leaf_of(&img, b"near");
    img[near * 256 + 20] ^= 1;
    assert!(is_database(&img));
    let mut txn = Rmdb::open(img.clone()).unwrap().get_write_transaction().unwrap();
    assert!(matches!(txn.get_entry(b"wide"), Err(RmdbError::IntegrityCheck)));
    assert!(matches!(txn.get_entry(b"none"), Err(RmdbError::KeyNotFound)));
    assert!(txn.check_add(b"more", &[7; 600]));
    txn.add_entry(b"more", &[7; 600]).unwrap();
    assert_eq!(txn.get_entry(b"more").unwrap()[0], &[7; 600]);
    assert!(matches!(txn.get_entry(b"wide"), Err(RmdbError::IntegrityCheck)));
    assert!(txn.check_commit());
    txn.commit().unwrap();
    let db = Rmdb::open(txn.close().wr.mmap).unwrap();
    {
        let read = db.get_read_transaction().unwrap();
        assert_eq!(read.get_entry(b"more").unwrap()[0], &[7; 600]);
        assert!(matches!(read.get_entry(b"wide"), Err(RmdbError::IntegrityCheck)));
        assert!(matches!(read.get_entry(b"near"), Err(RmdbError::IntegrityCheck)));
    }
    let mut txn = db.get_write_transaction().unwrap();
    assert!(txn.check_add(b"wide", &[8; 500]));
    txn.add_entry(b"wide", &[8; 500]).unwrap();
    assert!(txn.check_del(b"near"));
    txn.del_entry(b"near").unwrap();
    assert!(txn.check_commit());
    txn.commit().unwrap();
    let db = Rmdb::open(txn.close().wr.mmap).unwrap();
    let read = db.get_read_transaction().unwrap();
    assert_eq!(read.get_entry(b"more").unwrap()[0], &[7; 600]);
    assert_eq!(read.get_entry(b"wide").unwrap()[0], &[8; 500]);
    assert!(matches!(read.get_entry(b"near"), Err(RmdbError::KeyNotFound)));
}
