//! What holds of writing: how what is read later follows from what was added, removed,
//! committed or given up.
use crate::bytes::{law_pages, lemma_page_zero, page};
use crate::db::{created, opened, Rmdb, RmdbTxnState};
use crate::error::RmdbError;
use crate::fetch::leaf_no;
use crate::hash::sha256;
use crate::laws::{law_reopen, law_whole_stays};
use crate::laws_bytes::law_leaf_bytes;
use crate::laws_size::law_payload;
use crate::options::RmdbOptions;
use crate::path::is_key;
use crate::saved::{in_map, is_index};
use crate::tree::{bushy, entries, has_page};
use crate::txn::finds;
use crate::wtxn::RmdbWTxn;
use vstd::prelude::*;

verus! {

/// A key that got a value has that value, all of it, and every other key is found as before.
pub proof fn law_add_and_search(
    s: RmdbWTxn,
    n: RmdbWTxn,
    key: Seq<u8>,
    value: Seq<u8>,
    done: Result<(), RmdbError>,
    other: Seq<u8>,
    was: Result<Vec<&[u8]>, RmdbError>,
    is: Result<Vec<&[u8]>, RmdbError>,
)
    requires
        n.added(s, key, value, done),
        done is Ok,
        finds(s@, s.marks()[other].right, other, was),
        finds(n@, n.marks()[other].right, other, is),
    ensures
        other == key ==> (is matches Ok(v) && v.len() == 1 && v[0]@ == value),
        other != key ==> was is Ok == is is Ok,
        other != key && is is Ok ==> was->Ok_0.len() == 1 && is->Ok_0.len() == 1 && was->Ok_0[0]@
            == is->Ok_0[0]@,
        other != key && (was matches Err(e) && e is KeyNotFound) ==> (is matches Err(e)
            && e is KeyNotFound),
{
    assert(s@.dom() =~= s.marks().dom());
}

/// A key that was there and was removed is not found, and every other key is found as before.
/// A key that was not there cannot be removed, and then nothing changes.
pub proof fn law_remove_and_search(
    s: RmdbWTxn,
    n: RmdbWTxn,
    key: Seq<u8>,
    done: Result<(), RmdbError>,
    other: Seq<u8>,
    was: Result<Vec<&[u8]>, RmdbError>,
    is: Result<Vec<&[u8]>, RmdbError>,
)
    requires
        n.removed(s, key, done),
        finds(s@, s.marks()[other].right, other, was),
        finds(n@, n.marks()[other].right, other, is),
    ensures
        done is Ok <==> s@.dom().contains(key),
        done matches Err(e) ==> e is KeyNotFound && n == s,
        other == key ==> (is matches Err(e) && e is KeyNotFound),
        other != key ==> was is Ok == is is Ok,
        other != key && is is Ok ==> was->Ok_0.len() == 1 && is->Ok_0.len() == 1 && was->Ok_0[0]@
            == is->Ok_0[0]@,
        other != key && (was matches Err(e) && e is KeyNotFound) ==> (is matches Err(e)
            && e is KeyNotFound),
{
    assert(s@.dom() =~= s.marks().dom());
}

/// To add a key and to remove it again leaves the keys and values that there were, but for
/// that key.
pub proof fn law_add_and_remove(
    s: RmdbWTxn,
    m: RmdbWTxn,
    n: RmdbWTxn,
    key: Seq<u8>,
    value: Seq<u8>,
    added: Result<(), RmdbError>,
    removed: Result<(), RmdbError>,
)
    requires
        m.added(s, key, value, added),
        added is Ok,
        n.removed(m, key, removed),
    ensures
        removed is Ok,
        n@ == s@.remove(key),
        !s@.dom().contains(key) ==> n@ == s@,
{
    assert(n@ =~= s@.remove(key));
    if !s@.dom().contains(key) {
        assert(s@.remove(key) =~= s@);
    }
}

/// What a transaction starts with is what is saved, and until it is committed what is saved
/// stays: neither adding nor removing changes what readers see.
pub proof fn law_readers_see_what_is_saved(
    db: Rmdb,
    s: Result<RmdbWTxn, RmdbError>,
    n: RmdbWTxn,
    m: RmdbWTxn,
    key: Seq<u8>,
    value: Seq<u8>,
    other: Seq<u8>,
    added: Result<(), RmdbError>,
    removed: Result<(), RmdbError>,
)
    requires
        db.begins_as(s),
        n.added(s->Ok_0, key, value, added),
        m.removed(n, other, removed),
    ensures
        s is Ok,
        s->Ok_0@ == db@,
        n.rmdb@ == db@,
        m.rmdb@ == db@,
{
}

/// A transaction that is committed saves what it sees: the database that is given back, and
/// the one that is opened from the bytes of its file, hold just that.
pub proof fn law_commit_and_open(
    s: RmdbWTxn,
    n: RmdbWTxn,
    db: Rmdb,
    again: Result<Rmdb, RmdbError>,
    key: Seq<u8>,
    found: Result<Vec<&[u8]>, RmdbError>,
)
    requires
        n.committed(s),
        n.closes_as(db),
        opened(db.wr.mmap@, again),
        finds(again->Ok_0@, again->Ok_0.intact(key), key, found),
    ensures
        n.status == RmdbTxnState::Committed,
        db@ == s@,
        again matches Ok(o) && o@ == s@ && o.wr.mmap@ == db.wr.mmap@,
        found matches Ok(v) ==> s@.dom().contains(key) && v.len() == 1 && v[0]@ == s@[key],
        (found matches Err(e) && e is KeyNotFound) <==> !s@.dom().contains(key),
        s.whole() && s@.dom().contains(key) ==> db.intact(key),
{
    law_reopen(db);
    if s.whole() && s@.dom().contains(key) {
        crate::txn::lemma_intact(db, key);
    }
}

/// What was added and committed is there when the file is opened again.
pub proof fn law_add_commit_open(
    s: RmdbWTxn,
    m: RmdbWTxn,
    n: RmdbWTxn,
    db: Rmdb,
    again: Result<Rmdb, RmdbError>,
    key: Seq<u8>,
    value: Seq<u8>,
    added: Result<(), RmdbError>,
)
    requires
        m.added(s, key, value, added),
        added is Ok,
        n.committed(m),
        n.closes_as(db),
        opened(db.wr.mmap@, again),
    ensures
        again matches Ok(o) && o@ == s@.insert(key, value),
{
    law_reopen(db);
}

/// A transaction that is given up, or closed without a commit, leaves the database as it was
/// saved: the same keys and values, the same root, and a file that opens to the same.
pub proof fn law_give_up(
    s: RmdbWTxn,
    n: RmdbWTxn,
    db: Rmdb,
    done: Result<(), RmdbError>,
    again: Result<Rmdb, RmdbError>,
)
    requires
        s.status == RmdbTxnState::Open,
        n.scrubbed(s, done),
        n.closes_as(db) || s.closes_as(db),
        opened(db.wr.mmap@, again),
    ensures
        done is Ok,
        n.status == RmdbTxnState::Scrubbed,
        db@ == s.rmdb@,
        db.rootpage == s.rmdb.rootpage,
        db.wr.num_pages == s.rmdb.wr.num_pages,
        db.wr.mmap@ == s.rmdb.wr.mmap@,
        again matches Ok(o) && o@ == s.rmdb@,
{
    law_reopen(db);
}

/// A transaction can be given up once only.
pub proof fn law_give_up_once(
    s: RmdbWTxn,
    n: RmdbWTxn,
    m: RmdbWTxn,
    first: Result<(), RmdbError>,
    second: Result<(), RmdbError>,
)
    requires
        n.scrubbed(s, first),
        m.scrubbed(n, second),
    ensures
        second matches Err(e) && e is InvalidTransaction,
        m == n,
{
}

/// The leaf of a value that was replaced, or of a key that was removed, is free when that is
/// committed, unless the new map of free pages is in it. No page that is in use is free.
pub proof fn law_freed_by_commit(
    s: RmdbWTxn,
    m: RmdbWTxn,
    n: RmdbWTxn,
    key: Seq<u8>,
    value: Seq<u8>,
    done: Result<(), RmdbError>,
    p: int,
)
    requires
        is_key(entries(s.tree@), key),
        m.added(s, key, value, done) || m.removed(s, key, done),
        done is Ok,
        n.committed(m),
    ensures
        n.free(leaf_no(s.tree@, key)) || in_map(n.rmdb.base(), leaf_no(s.tree@, key)),
        n.free(p) ==> !has_page(n.rmdb.tree@, p) && !in_map(n.rmdb.base(), p) && 1 <= p < n.np(),
        s.np() <= m.np() <= n.np(),
{
    let l = leaf_no(s.tree@, key);
    assert(n.free(l) <==> (m.free(l) || m.deleted(l) || in_map(m.base@, l) || m.np() <= l < n.np())
        && !in_map(n.rmdb.base(), l));
    if n.free(p) {
        let t = n.rmdb.tree@;
        if has_page(t, p) {
            assert(crate::saved::kept(t, n.rmdb.base(), p));
        }
        crate::store::lemma_lists_wider(n.rmdb.wr.ls(), n.np(), n.np());
        let (o, i) = choose|o: int, i: int| #[trigger]
            crate::blocks::covers(n.rmdb.wr.ls(), o, i, p);
        assert(crate::blocks::listed(n.rmdb.wr.ls(), o, i));
    }
}

/// A commit writes to page 0 how many pages there are and where the root is, and the pages
/// that it had by then are not fewer.
pub proof fn law_commit_bytes(s: RmdbWTxn, n: RmdbWTxn)
    requires
        n.committed(s),
    ensures
        ({
            let img = n.rmdb.wr.mmap@;
            &&& img.len() >= 128
            &&& img[16] + 256 * img[17] + 65536 * img[18] + 16777216 * img[19]
                == n.rmdb.wr.num_pages
            &&& img[20] + 256 * img[21] + 65536 * img[22] + 16777216 * img[23] == s.rootpage
        }),
        n.rmdb.wr.num_pages >= s.rmdb.wr.num_pages,
{
    let img = n.img();
    let ps = n.ps();
    lemma_page_zero(img, ps);
    let zero = page(img, ps, 0);
    assert(zero[16] == img[16] && zero[17] == img[17] && zero[18] == img[18] && zero[19] == img[19]);
    assert(zero[20] == img[20] && zero[21] == img[21] && zero[22] == img[22] && zero[23] == img[23]);
}

/// What is free after a commit: what was free, what was given up, the pages of the old map,
/// and those by which the database grew, but for the pages of the new map.
pub proof fn law_free_after_commit(s: RmdbWTxn, n: RmdbWTxn, p: int)
    requires
        n.committed(s),
    ensures
        ({
            let img = n.rmdb.wr.mmap@;
            let map = img[24] + 256 * img[25] + 65536 * img[26] + 16777216 * img[27];
            let span = img[28] + 256 * img[29] + 65536 * img[30] + 16777216 * img[31];
            n.free(p) <==> (s.free(p) || s.deleted(p) || s.base@.fp <= p < s.base@.fp + s.base@.fs
                || s.np() <= p < n.np()) && !(map <= p < map + span)
        }),
{
    let img = n.img();
    let ps = n.ps();
    lemma_page_zero(img, ps);
    let zero = page(img, ps, 0);
    assert(zero[24] == img[24] && zero[25] == img[25] && zero[26] == img[26] && zero[27] == img[27]);
    assert(zero[28] == img[28] && zero[29] == img[29] && zero[30] == img[30] && zero[31] == img[31]);
}

/// A new database can be read, and takes any key.
pub proof fn law_new_is_readable(
    options: Option<RmdbOptions>,
    db: Result<Rmdb, RmdbError>,
    s: Result<RmdbWTxn, RmdbError>,
)
    requires
        options matches Some(o) ==> o.usable(),
        created(options, db),
        db->Ok_0.begins_as(s),
    ensures
        db is Ok && s is Ok,
        db->Ok_0.readable(),
        s->Ok_0.whole(),
        s->Ok_0.takes_all(),
        s->Ok_0@ == Map::<Seq<u8>, Seq<u8>>::empty(),
{
    let d = db->Ok_0;
    let t = d.tree@;
    assert forall|p: int| #[trigger] is_index(t, p) implies d.layout.sealed(d.img(), p) by {
        assert(p == d.rootpage);
    }
    assert(bushy(t));
}

/// Where all hashes are right they stay so: adding, removing and committing write no wrong
/// ones, so that no search in what is saved fails but for a key that is not there.
pub proof fn law_hashes_stay_right(
    s: RmdbWTxn,
    m: RmdbWTxn,
    n: RmdbWTxn,
    db: Rmdb,
    key: Seq<u8>,
    value: Seq<u8>,
    done: Result<(), RmdbError>,
    other: Seq<u8>,
    found: Result<Vec<&[u8]>, RmdbError>,
)
    requires
        s.whole(),
        m.added(s, key, value, done) || m.removed(s, key, done),
        n.committed(m),
        n.closes_as(db),
        finds(db@, db.intact(other), other, found),
    ensures
        m.whole(),
        db.readable(),
        found is Ok <==> db@.dom().contains(other),
        found matches Err(e) ==> e is KeyNotFound,
{
    if done is Ok {
        law_whole_stays(s, m, key);
    }
    if db@.dom().contains(other) {
        crate::txn::lemma_intact(db, other);
    }
}

/// A database is readable where every node and leaf ends in the hash of all bytes before it,
/// and every leaf has the right hash of its value.
pub proof fn law_readable(db: Rmdb)
    requires
        db.sound(),
        db.layout.flags.bits % 2 == 1 ==> {
            let (img, ps) = (db.wr.mmap@, db.layout.pagesize as int);
            &&& forall|p: int| #[trigger]
                is_index(db.tree@, p) ==> img.subrange(p * ps + ps - 32, p * ps + ps) == sha256(
                    img.subrange(p * ps, p * ps + ps - 32),
                )
            &&& forall|key: Seq<u8>| #[trigger] db@.dom().contains(key) ==> db.intact(key)
        },
    ensures
        db.readable(),
{
    let (img, lay, t) = (db.img(), db.layout, db.tree@);
    let ps = lay.ps();
    law_payload(ps, lay.flags);
    assert forall|p: int| #[trigger] is_index(t, p) implies lay.sealed(img, p) by {
        if lay.flags.bits % 2 == 1 {
            crate::tree::lemma_index_in(img, lay, t, crate::tree::height(t), true, p);
            law_pages(img, ps, p, 0);
            assert(0 <= p * ps && (p + 1) * ps == p * ps + ps) by (nonlinear_arith)
                requires
                    p >= 0,
                    ps >= 0,
            ;
            let pg = page(img, ps, p);
            assert(pg.subrange(ps - 32, ps) =~= img.subrange(p * ps + ps - 32, p * ps + ps));
            assert(pg.subrange(0, ps - 32) =~= img.subrange(p * ps, p * ps + ps - 32));
        }
    }
    let es = entries(t);
    assert forall|i: int| 0 <= i < es.len() implies (#[trigger] es[i]).2.right by {
        crate::contents::lemma_place(es, i);
        assert(db@.dom().contains(es[i].0));
        if lay.flags.bits % 2 == 1 {
            assert(db.intact(es[i].0));
        } else {
            law_leaf_bytes(db, es[i].0);
        }
    }
}

} // verus!
