use rmdb::hash::compute_hash;
use rmdb::order::{rank, Rank};
use rmdb::{
    is_database, order_to_size, page_range, payload_size, rmdb_minsize, size_to_order, size_to_pages, Rmdb,
    RmdbError, RmdbFlags, RmdbOptions,
};

#[test]
fn default_options() {
    let opt = RmdbOptions::new();
    assert_eq!(opt.init_size, 262144);
    assert_eq!(opt.pagesize, 4096);
    assert_eq!(opt.flags.bits(), 33);
    assert!(!opt.readonly);
    assert!(opt.is_usable());
}

#[test]
fn options_are_set_one_by_one() {
    let opt = *RmdbOptions::new().pagesize(8192).initial_size(81920).flags(RmdbFlags::empty()).readonly();
    assert_eq!(opt.init_size, 81920);
    assert_eq!(opt.pagesize, 8192);
    assert_eq!(opt.flags.bits(), 0);
    assert!(opt.readonly);
}

#[test]
fn page_size_raises_the_first_size() {
    let opt = *RmdbOptions::new().pagesize(8192);
    assert_eq!(opt.init_size, 524288);
    let opt = *RmdbOptions::new().pagesize(1024);
    assert_eq!(opt.init_size, 262144);
}

#[test]
fn page_size_has_a_least_value() {
    let opt = *RmdbOptions::new().pagesize(1);
    assert_eq!(opt.pagesize, 128);
    let opt = *RmdbOptions::new().pagesize(127);
    assert_eq!(opt.pagesize, 128);
    let opt = *RmdbOptions::new().pagesize(129);
    assert_eq!(opt.pagesize, 129);
}

#[test]
fn options_that_cannot_be_used() {
    assert!(!RmdbOptions::new().initial_size(4096).is_usable());
    assert!(!RmdbOptions::new().pagesize(0x40001).initial_size(0x40001 * 64).is_usable());
    assert!(RmdbOptions::new().initial_size(8192).is_usable());
}

#[test]
fn the_last_page_is_filled_up() {
    let opt = *RmdbOptions::new().initial_size(4096 * 3 + 1);
    assert!(opt.is_usable());
    let db = Rmdb::create(Some(opt)).unwrap();
    assert_eq!(db.size().unwrap(), 4096 * 4);
    assert!(is_database(&db.wr.mmap));
}

#[test]
fn minsize_is_64_pages() {
    assert_eq!(rmdb_minsize(128), 8192);
    assert_eq!(rmdb_minsize(4096), 262144);
}

#[test]
fn payload_leaves_room_for_the_hash() {
    assert_eq!(payload_size(4096, RmdbFlags::default()), 4064);
    assert_eq!(payload_size(4096, RmdbFlags::empty()), 4096);
    assert_eq!(payload_size(128, RmdbFlags::default()), 96);
}

#[test]
fn flags_by_their_bits() {
    assert!(RmdbFlags::from_bits(128).is_none());
    assert!(RmdbFlags::from_bits(127).is_some());
    let f = RmdbFlags::from_bits(RmdbFlags::PAGE_FLUSH | RmdbFlags::ZERO_PAGES).unwrap();
    assert_eq!(f.bits(), 68);
    assert!(f.contains(RmdbFlags::PAGE_FLUSH));
    assert!(f.contains(RmdbFlags::ZERO_PAGES));
    assert!(!f.contains(RmdbFlags::PAGE_INTEGRITY));
    assert!(!f.contains(RmdbFlags::PAGE_FLUSH | RmdbFlags::PAGE_SYNC_FLUSH));
}

#[test]
fn orders_and_sizes() {
    assert_eq!(size_to_order(0), 0);
    assert_eq!(size_to_order(1), 0);
    assert_eq!(size_to_order(2), 1);
    assert_eq!(size_to_order(3), 2);
    assert_eq!(size_to_order(64), 6);
    assert_eq!(size_to_order(65), 7);
    assert_eq!(order_to_size(0), 1);
    assert_eq!(order_to_size(5), 32);
    assert_eq!(order_to_size(31), 2147483648);
}

#[test]
fn sizes_in_pages() {
    assert_eq!(size_to_pages(4096, 0), 0);
    assert_eq!(size_to_pages(4096, 1), 1);
    assert_eq!(size_to_pages(4096, 4096), 1);
    assert_eq!(size_to_pages(4096, 4097), 2);
}

#[test]
fn ranges_within_a_page() {
    assert!(matches!(page_range(128, 3, 4, 8), Ok((388, 396))));
    assert!(matches!(page_range(128, 0, 0, 128), Ok((0, 128))));
    assert!(matches!(page_range(128, 0, 125, 4), Err(RmdbError::InvalidIndexSize)));
}

#[test]
fn known_hashes() {
    let abc = [
        0xba, 0x78, 0x16, 0xbf, 0x8f, 0x01, 0xcf, 0xea, 0x41, 0x41, 0x40, 0xde, 0x5d, 0xae, 0x22,
        0x23, 0xb0, 0x03, 0x61, 0xa3, 0x96, 0x17, 0x7a, 0x9c, 0xb4, 0x10, 0xff, 0x61, 0xf2, 0x00,
        0x15, 0xad,
    ];
    assert_eq!(compute_hash(&vec![b"abc"]), abc);
    assert_eq!(compute_hash(&vec![b"a", b"", b"bc"]), abc);
    let nothing = [
        0xe3, 0xb0, 0xc4, 0x42, 0x98, 0xfc, 0x1c, 0x14, 0x9a, 0xfb, 0xf4, 0xc8, 0x99, 0x6f, 0xb9,
        0x24, 0x27, 0xae, 0x41, 0xe4, 0x64, 0x9b, 0x93, 0x4c, 0xa4, 0x95, 0x99, 0x1b, 0x78, 0x52,
        0xb8, 0x55,
    ];
    assert_eq!(compute_hash(&Vec::new()), nothing);
}

#[test]
fn order_of_keys() {
    assert_eq!(rank(b"a", b"b"), Rank::Before);
    assert_eq!(rank(b"b", b"a"), Rank::Behind);
    assert_eq!(rank(b"ab", b"ab"), Rank::Same);
    assert_eq!(rank(b"a", b"ab"), Rank::Before);
    assert_eq!(rank(b"ab", b"a"), Rank::Behind);
    assert_eq!(rank(b"", b""), Rank::Same);
    assert_eq!(rank(b"test10", b"test9"), Rank::Before);
}

#[test]
fn errors_in_words() {
    assert_eq!(RmdbError::InvalidTransaction.message(), "Transaction already closed");
    assert_eq!(RmdbError::InvalidDBFile.message(), "Invalid DB file contents");
    assert_eq!(RmdbError::InvalidFileSize.message(), "File of invalid size");
    assert_eq!(RmdbError::InvalidIndexSize.message(), "Index too large");
    assert_eq!(RmdbError::IntegrityCheck.message(), "Integrity Check failed!");
    assert_eq!(RmdbError::LockError.message(), "Lock Poisoned Error");
    assert_eq!(RmdbError::UnalignedAccess.message(), "Unaligned Access Request");
    assert_eq!(RmdbError::InvalidMetadata.message(), "Invalid metadata");
    assert_eq!(RmdbError::KeyNotFound.message(), "Key not found");
    assert_eq!(RmdbError::KeyTooSmall.message(), "Key not in this (sub)tree (too small)");
    assert_eq!(RmdbError::KeyTooBig.message(), "Key not in this (sub)tree (too big)");
    assert_eq!(RmdbError::PageNotLeaf.message(), "Page is not a leaf");
    assert_eq!(RmdbError::InvalidDataSize.message(), "Invalid data size");
    assert_eq!(RmdbError::InvalidCursor.message(), "Invalid Cursor");
    assert_eq!(RmdbError::NotImplemented.message(), "Oooh!! Where's my code?");
    assert!(RmdbError::KeyNotFound.cause().is_none());
}

#[test]
fn io_errors_are_carried() {
    let err = RmdbError::from(std::io::Error::new(std::io::ErrorKind::NotFound, "no such thing"));
    assert_eq!(err.message(), "IO error: no such thing");
    assert_eq!(err.cause().unwrap().kind(), std::io::ErrorKind::NotFound);
}

#[test]
fn facts_about_a_database() {
    let db = Rmdb::create(None).unwrap();
    assert_eq!(db.version(), 0);
    assert_eq!(db.flags().bits(), 33);
    assert_eq!(db.size().unwrap(), 262144);
    assert_eq!(&db.wr.mmap[0..4], b"RMDB");
    assert_eq!(&db.wr.mmap[4..8], &[3, 0, 0, 0]);
    assert_eq!(&db.wr.mmap[8..12], &[33, 0, 0, 0]);
    assert_eq!(&db.wr.mmap[12..16], &[0, 16, 0, 0]);
    assert_eq!(&db.wr.mmap[16..20], &[64, 0, 0, 0]);
}
