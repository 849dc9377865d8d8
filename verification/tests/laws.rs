use rmdb::hash::compute_hash;
use rmdb::{Rmdb, RmdbError, RmdbOptions, RmdbWTxn};

fn small() -> Rmdb {
    let opt = *RmdbOptions::new().pagesize(128).initial_size(128 * 64);
    Rmdb::create(Some(opt)).unwrap()
}

fn add(txn: &mut RmdbWTxn, key: &[u8], value: &[u8]) {
    assert!(txn.check_add(key, value));
    txn.add_entry(key, value).unwrap();
}

fn del(txn: &mut RmdbWTxn, key: &[u8]) {
    assert!(txn.check_del(key));
    txn.del_entry(key).unwrap();
}

fn commit(mut txn: RmdbWTxn) -> Rmdb {
    assert!(txn.check_commit());
    txn.commit().unwrap();
    txn.close()
}

fn filled(n: usize) -> Rmdb {
    let mut txn = small().get_write_transaction().unwrap();
    for i in 0..n {
        add(&mut txn, format!("k{:03}", i).as_bytes(), format!("v{}", i).as_bytes());
    }
    commit(txn)
}

fn value(txn: &RmdbWTxn, key: &[u8]) -> Option<Vec<u8>> {
    match txn.get_entry(key) {
        Ok(v) => {
            assert_eq!(v.len(), 1);
            Some(v[0].to_vec())
        },
        Err(RmdbError::KeyNotFound) => None,
        Err(e) => panic!("{}", e.message()),
    }
}

fn pairs(db: &Rmdb) -> Vec<(Vec<u8>, Vec<u8>)> {
    let read = db.get_read_transaction().unwrap();
    let mut cursor = read.get_cursor().unwrap();
    let mut all = Vec::new();
    while let Ok((key, val)) = cursor.get_next() {
        all.push((key.to_vec(), val[0].to_vec()));
    }
    all
}

fn word(img: &[u8], at: usize) -> u32 {
    u32::from_le_bytes([img[at], img[at + 1], img[at + 2], img[at + 3]])
}

fn depths(img: &[u8], ps: usize, page: u32, depth: usize, found: &mut Vec<usize>) {
    let at = page as usize * ps;
    let kind = u16::from_le_bytes([img[at], img[at + 1]]);
    if kind & 8 == 8 {
        found.push(depth);
    } else {
        let n = u16::from_le_bytes([img[at + 2], img[at + 3]]) as usize;
        for i in 0..n {
            depths(img, ps, word(img, at + 4 + 4 * i), depth + 1, found);
        }
    }
}

fn tree_pages(img: &[u8], ps: usize, page: u32, found: &mut Vec<u32>) {
    found.push(page);
    let at = page as usize * ps;
    let kind = u16::from_le_bytes([img[at], img[at + 1]]);
    if kind & 4 == 4 {
        let n = u16::from_le_bytes([img[at + 2], img[at + 3]]) as usize;
        for i in 0..n {
            tree_pages(img, ps, word(img, at + 4 + 4 * i), found);
        }
    }
}

#[test]
fn what_is_written_is_read() {
    let mut txn = small().get_write_transaction().unwrap();
    for len in [0usize, 1, 2, 30, 55, 56, 63, 64, 96, 127, 128, 129, 1000, 5000].iter() {
        let val: Vec<u8> = (0..*len).map(|i| (i % 251) as u8).collect();
        let key = format!("len{}", len);
        add(&mut txn, key.as_bytes(), &val);
        assert_eq!(value(&txn, key.as_bytes()), Some(val));
    }
}

#[test]
fn what_is_removed_is_gone() {
    let mut txn = filled(30).get_write_transaction().unwrap();
    del(&mut txn, b"k007");
    assert_eq!(value(&txn, b"k007"), None);
    assert!(matches!(txn.del_entry(b"k007"), Err(RmdbError::KeyNotFound)));
}

#[test]
fn other_keys_stay() {
    let mut txn = filled(40).get_write_transaction().unwrap();
    add(&mut txn, b"k020", b"other");
    del(&mut txn, b"k021");
    for i in 0..40 {
        let val = value(&txn, format!("k{:03}", i).as_bytes());
        match i {
            20 => assert_eq!(val, Some(b"other".to_vec())),
            21 => assert_eq!(val, None),
            _ => assert_eq!(val, Some(format!("v{}", i).into_bytes())),
        }
    }
}

#[test]
fn the_last_value_counts() {
    let mut txn = filled(5).get_write_transaction().unwrap();
    add(&mut txn, b"k001", b"first");
    add(&mut txn, b"k001", &[7u8; 400]);
    add(&mut txn, b"k001", b"second");
    assert_eq!(value(&txn, b"k001"), Some(b"second".to_vec()));
}

#[test]
fn to_remove_undoes_to_add() {
    let before = pairs(&filled(25));
    let mut txn = filled(25).get_write_transaction().unwrap();
    add(&mut txn, b"k0105", b"in between");
    del(&mut txn, b"k0105");
    assert_eq!(pairs(&commit(txn)), before);
}

#[test]
fn the_order_of_writes_does_not_matter() {
    let mut up = small().get_write_transaction().unwrap();
    let mut down = small().get_write_transaction().unwrap();
    for i in 0..60 {
        let j = 59 - i;
        add(&mut up, format!("k{}", i).as_bytes(), format!("v{}", i).as_bytes());
        add(&mut down, format!("k{}", j).as_bytes(), format!("v{}", j).as_bytes());
    }
    assert_eq!(pairs(&commit(up)), pairs(&commit(down)));
}

#[test]
fn readers_see_what_is_saved() {
    let db = filled(30);
    let before = pairs(&db);
    let mut txn = db.get_write_transaction().unwrap();
    for i in 0..200 {
        add(&mut txn, format!("new{}", i).as_bytes(), &vec![1; i]);
        if i < 30 {
            del(&mut txn, format!("k{:03}", i).as_bytes());
        }
        let read = txn.rmdb.get_read_transaction().unwrap();
        assert_eq!(read.get_entry(b"k003").unwrap()[0], b"v3");
        assert!(matches!(read.get_entry(b"new1"), Err(RmdbError::KeyNotFound)));
    }
    assert_eq!(pairs(&txn.rmdb), before);
}

#[test]
fn a_file_left_in_a_transaction_is_as_saved() {
    let db = filled(30);
    let before = pairs(&db);
    let mut txn = db.get_write_transaction().unwrap();
    for i in 0..100 {
        add(&mut txn, format!("new{}", i).as_bytes(), &vec![1; 3 * i]);
        let left = Rmdb::open(txn.rmdb.wr.mmap.clone()).unwrap();
        assert_eq!(pairs(&left), before);
    }
}

#[test]
fn scrub_forgets_the_changes() {
    let db = filled(30);
    let before = pairs(&db);
    let lists = db.wr.freepages.lists.clone();
    let mut txn = db.get_write_transaction().unwrap();
    for i in 0..100 {
        add(&mut txn, format!("new{}", i).as_bytes(), &vec![1; i]);
    }
    del(&mut txn, b"k000");
    txn.scrub().unwrap();
    assert!(matches!(txn.scrub(), Err(RmdbError::InvalidTransaction)));
    let db = txn.close();
    assert_eq!(pairs(&db), before);
    assert_eq!(db.wr.freepages.lists, lists);
}

#[test]
fn close_forgets_what_was_not_committed() {
    let db = filled(3);
    let before = pairs(&db);
    let mut txn = db.get_write_transaction().unwrap();
    add(&mut txn, b"lost", b"lost");
    assert_eq!(pairs(&txn.close()), before);
}

#[test]
fn commit_is_what_a_file_opens_as() {
    let db = filled(200);
    let before = pairs(&db);
    assert_eq!(before.len(), 200);
    let lists = db.wr.freepages.lists.clone();
    let db = Rmdb::open(db.wr.mmap).unwrap();
    assert_eq!(pairs(&db), before);
    assert_eq!(db.wr.freepages.lists, lists);
}

#[test]
fn an_empty_database_opens_empty() {
    let db = Rmdb::open(small().wr.mmap).unwrap();
    let read = db.get_read_transaction().unwrap();
    assert!(matches!(read.get_entry(b""), Err(RmdbError::KeyNotFound)));
    assert!(matches!(read.get_entry(b"x"), Err(RmdbError::KeyNotFound)));
}

#[test]
fn leaves_are_equally_deep() {
    let db = filled(500);
    let mut found = Vec::new();
    depths(&db.wr.mmap, 128, db.rootpage, 0, &mut found);
    assert_eq!(found.len(), 500);
    assert!(found[0] > 1);
    assert!(found.iter().all(|d| *d == found[0]));
}

#[test]
fn no_page_is_free_and_in_use() {
    let mut txn = filled(150).get_write_transaction().unwrap();
    for i in 0..150 {
        if i % 2 == 0 {
            del(&mut txn, format!("k{:03}", i).as_bytes());
        }
    }
    let db = commit(txn);
    let mut pages = Vec::new();
    tree_pages(&db.wr.mmap, 128, db.rootpage, &mut pages);
    let fp = word(&db.wr.mmap, 24);
    for p in fp..fp + word(&db.wr.mmap, 28) {
        pages.push(p);
    }
    for (order, list) in db.wr.freepages.lists.iter().enumerate() {
        for block in list.iter() {
            for p in *block..*block + (1 << order) {
                pages.push(p);
            }
        }
    }
    let n = pages.len();
    pages.sort();
    pages.dedup();
    assert_eq!(pages.len(), n);
    assert!(pages[0] >= 1);
    assert!(*pages.last().unwrap() < db.wr.num_pages);
}

#[test]
fn a_cursor_meets_all_keys_in_order() {
    let db = filled(333);
    let all = pairs(&db);
    assert_eq!(all.len(), 333);
    assert!(all.windows(2).all(|w| w[0].0 < w[1].0));
    let read = db.get_read_transaction().unwrap();
    let mut cursor = read.get_cursor().unwrap();
    for _ in 0..333 {
        cursor.get_next().unwrap();
    }
    assert!(matches!(cursor.get_next(), Err(RmdbError::KeyNotFound)));
    assert!(matches!(cursor.get_next(), Err(RmdbError::KeyNotFound)));
    assert_eq!(cursor.get_current().unwrap().0, b"k332");
}

#[test]
fn a_cursor_goes_on_from_a_key() {
    let db = filled(100);
    let read = db.get_read_transaction().unwrap();
    let mut cursor = read.get_cursor().unwrap();
    cursor.set_to(b"k041").unwrap();
    assert_eq!(cursor.get_current().unwrap().0, b"k041");
    assert_eq!(cursor.get_next().unwrap().0, b"k042");
    assert_eq!(cursor.get_current().unwrap().1[0], b"v42");
}

fn free_pages(db: &Rmdb) -> Vec<u32> {
    let mut pages = Vec::new();
    for (order, list) in db.wr.freepages.lists.iter().enumerate() {
        for block in list {
            for page in *block..*block + (1 << order) {
                pages.push(page);
            }
        }
    }
    pages.sort();
    pages
}

#[test]
fn pages_that_are_given_up_are_free_again() {
    let db = filled(60);
    let mut used = Vec::new();
    tree_pages(&db.wr.mmap, 128, db.rootpage, &mut used);
    let mut txn = db.get_write_transaction().unwrap();
    for i in 0..60 {
        del(&mut txn, format!("k{:03}", i).as_bytes());
    }
    let gone = txn.deletepages.clone();
    let db = commit(txn);
    let free = free_pages(&db);
    let map = word(&db.wr.mmap, 24)..word(&db.wr.mmap, 24) + word(&db.wr.mmap, 28);
    for page in used {
        assert!(gone.contains(&page) || page == db.rootpage);
        assert!(free.contains(&page) || map.contains(&page));
    }
    assert!(gone.iter().any(|page| page % 2 == 0) && gone.iter().any(|page| page % 2 == 1));
    assert_eq!(free.len(), db.wr.freepages.free as usize);
}

#[test]
fn every_page_is_free_or_in_use() {
    let db = filled(40);
    let mut used = vec![0];
    tree_pages(&db.wr.mmap, 128, db.rootpage, &mut used);
    used.extend(word(&db.wr.mmap, 24)..word(&db.wr.mmap, 24) + word(&db.wr.mmap, 28));
    used.extend(free_pages(&db));
    used.sort();
    assert_eq!(used, (0..db.wr.num_pages).collect::<Vec<u32>>());
}

#[test]
fn the_map_goes_to_other_pages() {
    let db = filled(3);
    let (fp, fs) = (word(&db.wr.mmap, 24) as usize, word(&db.wr.mmap, 28) as usize);
    let before = db.wr.mmap[fp * 128..(fp + fs) * 128].to_vec();
    let db = commit(db.get_write_transaction().unwrap());
    let now = word(&db.wr.mmap, 24) as usize;
    assert!(now + word(&db.wr.mmap, 28) as usize <= fp || fp + fs <= now);
    assert_eq!(db.wr.mmap[fp * 128..(fp + fs) * 128], before[..]);
}

#[test]
fn page_0_names_all_pages() {
    let db = filled(2);
    assert_eq!(word(&db.wr.mmap, 16), 64);
    let db = filled(200);
    assert!(db.wr.num_pages > 64);
    assert_eq!(word(&db.wr.mmap, 16), db.wr.num_pages);
    assert_eq!(db.wr.mmap.len(), (db.wr.num_pages as usize + 1) * 128);
}

#[test]
fn a_value_takes_the_pages_that_it_fills() {
    let mut txn = small().get_write_transaction().unwrap();
    let free = txn.rmdb.wr.freepages.free;
    add(&mut txn, b"a", &[1; 128]);
    // a page of data, a leaf, and a copy of the root
    assert_eq!(txn.rmdb.wr.freepages.free, free - 3);
    add(&mut txn, b"b", &[1; 129]);
    let more = txn.rmdb.wr.freepages.free;
    // another page of data, and another copy of the root
    assert_eq!(more, free - 7);
}

#[test]
fn free_neighbours_are_joined() {
    let db = filled(30);
    for (order, list) in db.wr.freepages.lists.iter().enumerate() {
        for block in list {
            assert_eq!(block % (1 << order), 0);
            assert!(order == 31 || !list.contains(&(block ^ (1 << order))));
        }
    }
}

#[test]
fn an_opened_database_has_the_pages_that_page_zero_counts() {
    let db = filled(60);
    let pages = db.wr.num_pages;
    assert!(pages > 64);
    assert!(db.wr.mmap.len() > pages as usize * 128);
    let again = Rmdb::open(db.wr.mmap.clone()).unwrap();
    assert_eq!(again.wr.num_pages, pages);
    assert_eq!(again.wr.freepages.free, db.wr.freepages.free);
}

#[test]
fn a_file_with_spare_pages_is_grown_into() {
    let db = small();
    let pages = db.wr.num_pages;
    let before = pairs(&db);
    let mut txn = db.get_write_transaction().unwrap();
    for i in 0..60 {
        add(&mut txn, format!("k{:03}", i).as_bytes(), b"lost");
    }
    let image = txn.rmdb.wr.mmap.clone();
    assert!(txn.rmdb.wr.num_pages > pages);
    let left = Rmdb::open(image.clone()).unwrap();
    assert_eq!(left.wr.num_pages, pages);
    assert_eq!(pairs(&left), before);
    let mut txn = left.get_write_transaction().unwrap();
    for i in 0..60 {
        add(&mut txn, format!("k{:03}", i).as_bytes(), b"kept");
    }
    assert!(txn.rmdb.wr.num_pages > pages);
    assert_eq!(txn.rmdb.wr.mmap.len(), image.len());
    let db = commit(txn);
    assert_eq!(word(&db.wr.mmap, 16), db.wr.num_pages);
    assert!(rmdb::is_database(&db.wr.mmap));
    let again = Rmdb::open(db.wr.mmap.clone()).unwrap();
    assert_eq!(pairs(&again).len(), 60);
    assert!(pairs(&again).iter().all(|(_, v)| v == b"kept"));
}

#[test]
fn a_forgotten_transaction_leaves_the_pages_it_grew_by() {
    let db = small();
    let free = db.wr.freepages.free;
    let mut txn = db.get_write_transaction().unwrap();
    for i in 0..60 {
        add(&mut txn, format!("k{:03}", i).as_bytes(), b"lost");
    }
    let pages = txn.rmdb.wr.num_pages;
    assert!(pages > 64);
    let db = txn.close();
    assert_eq!(db.wr.num_pages, pages);
    assert_eq!(db.wr.freepages.free, free);
    assert_eq!(word(&db.wr.mmap, 16), 64);
}

#[test]
fn the_current_entry_stays_at_the_end() {
    let db = filled(3);
    let read = db.get_read_transaction().unwrap();
    let mut cursor = read.get_cursor().unwrap();
    for i in 0..3 {
        let (key, val) = cursor.get_next().unwrap();
        for _ in 0..2 {
            let (again, more) = cursor.get_current().unwrap();
            assert_eq!((again, &more), (key, &val));
        }
        assert_eq!(key, format!("k{:03}", i).as_bytes());
    }
    assert!(matches!(cursor.get_next(), Err(RmdbError::KeyNotFound)));
    assert!(matches!(cursor.get_next(), Err(RmdbError::KeyNotFound)));
    assert_eq!(cursor.get_current().unwrap().0, b"k002");
}

#[test]
fn committed_pages_are_final() {
    let mut txn = filled(3).get_write_transaction().unwrap();
    add(&mut txn, b"new", b"entry");
    let dirty = txn.dirtypages.clone();
    assert!(dirty.len() >= 2);
    let before = txn.rmdb.wr.mmap.clone();
    let db = commit(txn);
    for p in dirty {
        let at = p as usize * 128;
        let (was, now) = (&before[at..at + 128], &db.wr.mmap[at..at + 128]);
        assert_eq!(now[0], was[0]);
        assert_eq!(now[1], was[1] & 0x7f);
        assert_eq!(now[2..96], was[2..96]);
        assert_eq!(now[96..128], compute_hash(&vec![&now[0..96]])[..]);
    }
}

#[test]
fn a_transaction_that_is_closed_leaves_what_was_saved() {
    let db = filled(3);
    let (root, pages, free) = (db.rootpage, db.wr.num_pages, db.wr.freepages.free);
    let mut txn = db.get_write_transaction().unwrap();
    add(&mut txn, b"new", b"entry");
    let image = txn.rmdb.wr.mmap.clone();
    let db = txn.close();
    assert_eq!(db.wr.mmap, image);
    assert_eq!((db.rootpage, db.wr.num_pages, db.wr.freepages.free), (root, pages, free));
    assert_eq!(pairs(&db).len(), 3);
}
