//! What holds of the database as a whole.
use crate::blocks::{lemma_total_bound, lists_ok};
use crate::bytes::{in_img, lemma_page_len, page, u32_at};
use crate::commit::finished;
use crate::contents::{contents, lemma_place, place};
use crate::db::{database, fault, layout_of, lemma_main, lemma_no_fault, Rmdb};
use crate::error::RmdbError;
use crate::fetch::{leaf_no, lemma_next_pages, nums};
use crate::freemap::{lemma_next_list, map_at, map_bytes, spelled, words};
use crate::hash::sha256;
use crate::layout::{Layout, FREE_MAP, PAGE_DIRTY};
use crate::order::{lemma_lt_apart, lemma_lt_irreflexive, lt};
use crate::path::is_key;
use crate::saved::{in_map, is_index, page_type, saved, total_pages, Base};
use crate::tree::{entries, has_page, height, leads, lemma_holds_sub, part, sorted, Tree};
use crate::txn::{finds, lemma_leaf_mark, RmdbCursor};
use crate::wtxn::{lemma_basics, RmdbWTxn};
use vstd::prelude::*;

verus! {

/// Whether two searches came to the same.
pub open spec fn same_answer(
    a: Result<Vec<&[u8]>, RmdbError>,
    b: Result<Vec<&[u8]>, RmdbError>,
) -> bool {
    match (a, b) {
        (Ok(v), Ok(w)) => v.len() == 1 && w.len() == 1 && v[0]@ == w[0]@,
        (Err(e), Err(f)) => e is KeyNotFound && f is KeyNotFound || e is IntegrityCheck
            && f is IntegrityCheck,
        _ => false,
    }
}

/// Whether `n` came from `s` by a change to the key: it got a value, or was removed.
pub open spec fn changed(s: RmdbWTxn, n: RmdbWTxn, key: Seq<u8>) -> bool {
    &&& n.same_base(s)
    &&& {
        ||| n@ == s@.insert(key, n@[key]) && n.marks() == s.marks().insert(key, n.marks()[key])
        ||| n@ == s@.remove(key) && n.marks() == s.marks().remove(key)
    }
}

/// What was written is what is read: after a key got a value, a search for the key finds
/// that value.
pub proof fn law_read_back(
    s: RmdbWTxn,
    n: RmdbWTxn,
    key: Seq<u8>,
    value: Seq<u8>,
    r: Result<Vec<&[u8]>, RmdbError>,
)
    requires
        n@ == s@.insert(key, value),
        n.intact(key),
        finds(n@, n.marks()[key].right, key, r),
    ensures
        r matches Ok(v) && v.len() == 1 && v[0]@ == value,
{
}

/// What was removed is not found any more.
pub proof fn law_removed_is_gone(
    s: RmdbWTxn,
    n: RmdbWTxn,
    key: Seq<u8>,
    r: Result<Vec<&[u8]>, RmdbError>,
)
    requires
        n@ == s@.remove(key),
        finds(n@, n.marks()[key].right, key, r),
    ensures
        r matches Err(e) && e is KeyNotFound,
{
}

/// Other keys are as they were, whether a key got a value or was removed.
pub proof fn law_other_keys(
    s: RmdbWTxn,
    n: RmdbWTxn,
    key: Seq<u8>,
    other: Seq<u8>,
    was: Result<Vec<&[u8]>, RmdbError>,
    is: Result<Vec<&[u8]>, RmdbError>,
)
    requires
        changed(s, n, key),
        other != key,
        finds(s@, s.marks()[other].right, other, was),
        finds(n@, n.marks()[other].right, other, is),
    ensures
        same_answer(was, is),
        s@.dom().contains(other) ==> n.intact(other) == s.intact(other),
{
    assert(s@.dom() =~= s.marks().dom());
}

/// Where all hashes are right they stay so, whatever keys get values or are removed.
pub proof fn law_whole_stays(s: RmdbWTxn, n: RmdbWTxn, key: Seq<u8>)
    requires
        changed(s, n, key),
        n@.dom().contains(key) ==> n.intact(key),
        s.whole(),
    ensures
        n.whole(),
{
    assert(s@.dom() =~= s.marks().dom());
    assert forall|k: Seq<u8>| #[trigger] n@.dom().contains(k) implies n.marks()[k].right by {
        if k != key {
            assert(s@.dom().contains(k));
        }
    }
}

/// The last value counts.
pub proof fn law_last_write_counts(
    s: RmdbWTxn,
    n: RmdbWTxn,
    m: RmdbWTxn,
    key: Seq<u8>,
    first: Seq<u8>,
    second: Seq<u8>,
)
    requires
        n@ == s@.insert(key, first),
        m@ == n@.insert(key, second),
    ensures
        m@ == s@.insert(key, second),
{
    assert(m@ =~= s@.insert(key, second));
}

/// To remove a key that was new undoes that it was added.
pub proof fn law_remove_undoes_add(
    s: RmdbWTxn,
    n: RmdbWTxn,
    m: RmdbWTxn,
    key: Seq<u8>,
    value: Seq<u8>,
)
    requires
        !s@.dom().contains(key),
        n@ == s@.insert(key, value),
        m@ == n@.remove(key),
    ensures
        m@ == s@,
{
    assert(m@ =~= s@);
}

/// Values of different keys can be set in any order.
pub proof fn law_order_of_writes(
    s: RmdbWTxn,
    n: RmdbWTxn,
    m: RmdbWTxn,
    k1: Seq<u8>,
    v1: Seq<u8>,
    k2: Seq<u8>,
    v2: Seq<u8>,
)
    requires
        k1 != k2,
        n@ == s@.insert(k1, v1).insert(k2, v2),
        m@ == s@.insert(k2, v2).insert(k1, v1),
    ensures
        n@ == m@,
{
    assert(n@ =~= m@);
}

/// A database in which everything is saved has a tree that can be read.
pub proof fn law_saved_is_sound(db: Rmdb)
    requires
        db.wf(),
    ensures
        db.sound(),
{
}

/// Readers see nothing of a transaction that is not committed: however far it has come,
/// what is saved is what it was, and has the hashes that it had.
pub proof fn law_isolation(s: RmdbWTxn, n: RmdbWTxn, key: Seq<u8>)
    requires
        s.inv(),
        n.inv(),
        n.same_base(s),
    ensures
        n.rmdb.sound(),
        n.rmdb@ == s.rmdb@,
        n.rmdb.readable() == s.rmdb.readable(),
        n.rmdb@.dom().contains(key) ==> n.rmdb.intact(key) == s.rmdb.intact(key),
        forall|p: int| #[trigger] s.kept(p) ==> page(n.img(), n.ps(), p) == page(s.img(), s.ps(), p),
{
    reveal(RmdbWTxn::inv);
    let t = s.rmdb.tree@;
    assert forall|p: int| #[trigger] s.kept(p) implies page(n.img(), n.ps(), p) == page(
        s.img(),
        s.ps(),
        p,
    ) by {
        assert(n.kept(p));
    }
    assert forall|p: int| #[trigger] is_index(t, p) implies s.lay().sealed(n.img(), p)
        == s.lay().sealed(s.img(), p) by {
        assert(has_page(t, p));
        assert(s.kept(p));
    }
    if n.rmdb@.dom().contains(key) {
        lemma_leaf_mark(s.img(), s.lay(), s.rmdb.rootpage as int, t, key);
    }
}

/// A file that is left in the middle of a transaction is the database as it was saved
/// before.
pub proof fn law_left_open(s: RmdbWTxn)
    requires
        s.inv(),
    ensures
        database(s.img(), s.rmdb.tree@, s.base@),
        contents(entries(s.rmdb.tree@)) == s.rmdb@,
{
    lemma_inv_saved(s);
    lemma_is_database(s.rmdb, s.base@);
}

/// The file of a database in which everything is saved is that database.
pub proof fn law_reopen(db: Rmdb)
    requires
        db.wf(),
    ensures
        database(db.img(), db.tree@, db.base()),
        contents(entries(db.tree@)) == db@,
{
    lemma_is_database(db, db.base());
}

/// The file in a transaction still holds what was saved before it.
proof fn lemma_inv_saved(s: RmdbWTxn)
    requires
        s.inv(),
    ensures
        s.lay().ok(),
        s.rmdb.wr.ok(s.ps()),
        total_pages(s.img(), s.lay()) <= s.np(),
        saved(s.img(), s.lay(), s.rmdb.rootpage as int, s.rmdb.tree@, s.base@),
{
    reveal(RmdbWTxn::inv);
}

/// A file that holds what was saved is a database.
proof fn lemma_is_database(db: Rmdb, b: Base)
    requires
        db.layout.ok(),
        db.wr.ok(db.layout.ps()),
        total_pages(db.img(), db.layout) <= db.np(),
        saved(
            db.img(),
            db.layout,
            db.rootpage as int,
            db.tree@,
            b,
        ),
    ensures
        database(db.img(), db.tree@, b),
{
    crate::db::lemma_main(db.img(), db.layout);
}

/// What is read back from the map of free pages is what was written to it.
pub proof fn law_map_read_back(
    img: Seq<u8>,
    lay: Layout,
    fp: int,
    fs: int,
    np: int,
    written: Seq<Seq<u32>>,
    read: Seq<Seq<u32>>,
)
    requires
        map_at(img, lay, fp, fs, written),
        lists_ok(written, np),
        1 <= np <= u32::MAX,
        spelled(map_bytes(img, lay, fp), read),
    ensures
        read == written,
{
    lemma_total_bound(written, np);
    lemma_spelled_once(map_bytes(img, lay, fp), written, read, 32);
    assert(written.take(32) =~= written);
    assert(read.take(32) =~= read);
}

/// Bytes spell the first `o` lists in one way only.
proof fn lemma_spelled_once(b: Seq<u8>, a: Seq<Seq<u32>>, c: Seq<Seq<u32>>, o: int)
    requires
        spelled(b, a),
        spelled(b, c),
        0 <= o <= 32,
    ensures
        a.take(o) == c.take(o),
    decreases o,
{
    if o == 0 {
        assert(a.take(0) =~= c.take(0));
    } else {
        lemma_spelled_once(b, a, c, o - 1);
        let got = a.take(o - 1);
        lemma_next_list(b, a, got);
        lemma_next_list(b, c, got);
        let (x, y) = (a[o - 1], c[o - 1]);
        assert(got.len() == o - 1);
        assert forall|i: int| 0 <= i < x.len() implies #[trigger] x[i] == y[i] by {
            assert(x[i] == u32_at(b, FREE_MAP + 4 * (words(got).len() + 1 + i)));
        }
        assert(x =~= y);
        assert(a.take(o) =~= got.push(a[o - 1]));
        assert(c.take(o) =~= got.push(c[o - 1]));
    }
}

/// A page is never free and in use: neither by what is saved nor by the transaction's own
/// tree. Pages of the tree are not those of the map, nor page 0.
pub proof fn law_no_page_twice(s: RmdbWTxn, p: int)
    requires
        s.inv(),
    ensures
        s.free(p) ==> !s.used(p) && !s.kept(p) && 1 <= p < s.np(),
        s.used(p) ==> !in_map(s.base@, p) && 1 <= p < s.np(),
        s.dirty(p) ==> !s.kept(p),
        s.deleted(p) ==> !s.used(p),
{
    reveal(RmdbWTxn::inv);
    crate::store::lemma_lists_wider(s.rmdb.wr.ls(), s.np(), s.np());
}

/// A page that a transaction gives up is free when the transaction is committed, unless the
/// new map of free pages is in it.
pub proof fn law_given_up_is_free(s: RmdbWTxn, n: RmdbWTxn, p: int)
    requires
        s.inv(),
        s.given_up(p),
        forall|q: int| #[trigger]
            n.free(q) <==> (s.free(q) || s.deleted(q) || in_map(s.base@, q) || s.np() <= q < n.np())
                && !in_map(n.rmdb.base(), q),
    ensures
        n.free(p) || in_map(n.rmdb.base(), p),
{
    assert(n.free(p) || in_map(n.rmdb.base(), p));
}

/// A new value for a key gives up the leaf of the old one: when that is committed, its page
/// is free, unless the new map of free pages is in it.
pub proof fn law_replaced_leaf_is_free(s: RmdbWTxn, m: RmdbWTxn, n: RmdbWTxn, key: Seq<u8>)
    requires
        m.inv(),
        is_key(entries(s.tree@), key),
        m.deleted(leaf_no(s.tree@, key)),
        forall|q: int| #[trigger]
            n.free(q) <==> (m.free(q) || m.deleted(q) || in_map(m.base@, q) || m.np() <= q < n.np())
                && !in_map(n.rmdb.base(), q),
    ensures
        n.free(leaf_no(s.tree@, key)) || in_map(n.rmdb.base(), leaf_no(s.tree@, key)),
{
    law_given_up_is_free(m, n, leaf_no(s.tree@, key));
}

/// All leaves are equally far below the root, and no node but the root is without
/// children.
pub proof fn law_balanced(s: RmdbWTxn, q: Seq<int>)
    requires
        s.inv(),
        leads(s.tree@, q),
    ensures
        part(s.tree@, q) is Leaf ==> q.len() == height(s.tree@),
        part(s.tree@, q) is Node && q.len() > 0 ==> part(s.tree@, q).kids().len() > 0,
{
    lemma_basics(s);
    lemma_holds_sub(s.img(), s.lay(), s.tree@, q, height(s.tree@), true);
}

/// The keys of the tree ascend, and they are those of the map that the database is.
pub proof fn law_keys_ascend(db: Rmdb, key: Seq<u8>)
    requires
        db.sound(),
    ensures
        sorted(entries(db.tree@)),
        db@.dom().contains(key) <==> exists|i: int|
            0 <= i < entries(db.tree@).len() && #[trigger] entries(db.tree@)[i].0 == key,
        forall|i: int|
            0 <= i < entries(db.tree@).len() ==> db@[(#[trigger] entries(db.tree@)[i]).0]
                == entries(db.tree@)[i].1,
{
    let es = entries(db.tree@);
    assert forall|i: int| 0 <= i < es.len() implies db@[(#[trigger] es[i]).0] == es[i].1 by {
        lemma_place(es, i);
    }
}

/// A cursor that is moved on again and again meets every entry, in the order of keys, and
/// then nothing more.
pub proof fn law_walk(
    cs: Seq<RmdbCursor<'_>>,
    rs: Seq<Result<(&[u8], Vec<&[u8]>), RmdbError>>,
    k: int,
)
    requires
        cs.len() == rs.len() + 1,
        cs[0].fresh(),
        cs[0].db().sound(),
        cs[0].es().len() > 0,
        forall|i: int|
            0 <= i < rs.len() ==> #[trigger] cs[i + 1].stepped(cs[i], rs[i]),
        0 <= k < rs.len(),
    ensures
        cs[k + 1].txn == cs[0].txn,
        k < cs[0].es().len() ==> cs[k + 1].at(k) && cs[k + 1].reads(k, rs[k]),
        k >= cs[0].es().len() ==> cs[k + 1].at(cs[0].es().len() - 1) && (rs[k] matches Err(e)
            && e is KeyNotFound),
    decreases k,
{
    assert(cs[k + 1].stepped(cs[k], rs[k]));
    if k > 0 {
        law_walk(cs, rs, k - 1);
        let n = cs[0].es().len() as int;
        if k - 1 < n {
            assert(cs[k].at(k - 1));
        } else {
            assert(cs[k].at(n - 1));
        }
    }
}

/// Whether two reads of a cursor gave the same key and the same value.
pub open spec fn same_entry(
    a: Result<(&[u8], Vec<&[u8]>), RmdbError>,
    b: Result<(&[u8], Vec<&[u8]>), RmdbError>,
) -> bool {
    match (a, b) {
        (Ok((key, val)), Ok((other, more))) => {
            &&& key@ == other@
            &&& val.len() == 1
            &&& more.len() == 1
            &&& val[0]@ == more[0]@
        },
        _ => false,
    }
}

/// Reading the current entry of a cursor again and again gives what the last step gave, and
/// does not move it, whatever the image holds.
pub proof fn law_current_repeats(
    a: RmdbCursor<'_>,
    b: RmdbCursor<'_>,
    c: RmdbCursor<'_>,
    r: Result<(&[u8], Vec<&[u8]>), RmdbError>,
    again: Result<(&[u8], Vec<&[u8]>), RmdbError>,
)
    requires
        b.stepped(a, r) || b.shown(a, r),
        r is Ok,
        c.shown(b, again),
    ensures
        c.cursor == b.cursor,
        same_entry(r, again),
{
    if a.fresh() {
        let chain = a.first_chain()->0;
        assert(nums(b.cursor@).last() == b.cursor@.last());
    } else if b.stepped(a, r) && !b.shown(a, r) {
        let chain = nums(a.cursor@);
        lemma_next_pages(a.db().img(), a.db().layout, chain.drop_last(), chain.last());
        assert(nums(b.cursor@).last() == b.cursor@.last());
    }
}

/// A cursor that finds no further entry stays where it is: its current entry is the one
/// before.
pub proof fn law_current_after_end(
    a: RmdbCursor<'_>,
    b: RmdbCursor<'_>,
    c: RmdbCursor<'_>,
    d: RmdbCursor<'_>,
    r: Result<(&[u8], Vec<&[u8]>), RmdbError>,
    end: Result<(&[u8], Vec<&[u8]>), RmdbError>,
    again: Result<(&[u8], Vec<&[u8]>), RmdbError>,
)
    requires
        b.stepped(a, r) || b.shown(a, r),
        r is Ok,
        c.stepped(b, end),
        end matches Err(e) && e is KeyNotFound,
        d.shown(c, again),
    ensures
        d.cursor == b.cursor,
        same_entry(r, again),
{
    law_current_repeats(a, b, d, r, again);
}

/// Where a cursor is set to a key and moved on, it meets the key that follows: no key of
/// the database is between the two.
pub proof fn law_set_and_step(
    c: RmdbCursor<'_>,
    d: RmdbCursor<'_>,
    key: Seq<u8>,
    r: Result<(&[u8], Vec<&[u8]>), RmdbError>,
    other: Seq<u8>,
)
    requires
        c.db().sound(),
        c.db()@.dom().contains(key),
        c.at(place(c.es(), key)),
        d.stepped(c, r),
        r is Ok,
        c.db()@.dom().contains(other),
    ensures
        lt(key, r->Ok_0.0@),
        !(lt(key, other) && lt(other, r->Ok_0.0@)),
{
    let es = c.es();
    let i = place(es, key);
    assert(0 <= i < es.len() && es[i].0 == key);
    assert(c.at(i));
    if i + 1 == es.len() {
        assert(r is Err);
    }
    assert(r->Ok_0.0@ == es[i + 1].0);
    assert(lt(es[i].0, es[i + 1].0));
    let j = place(es, other);
    assert(0 <= j < es.len() && es[j].0 == other);
    if lt(key, other) && lt(other, es[i + 1].0) {
        lemma_lt_irreflexive(key);
        lemma_lt_irreflexive(other);
        if j < i {
            assert(lt(es[j].0, es[i].0));
            lemma_lt_apart(key, other);
        } else if j > i + 1 {
            assert(lt(es[i + 1].0, es[j].0));
            lemma_lt_apart(other, es[i + 1].0);
        }
    }
}

/// What was written and committed is found when the file is opened again.
pub proof fn law_durable(
    s: RmdbWTxn,
    n: RmdbWTxn,
    saved: Rmdb,
    opened: Rmdb,
    key: Seq<u8>,
    value: Seq<u8>,
    r: Result<Vec<&[u8]>, RmdbError>,
)
    requires
        n@ == s@.insert(key, value),
        n.intact(key),
        saved.wf(),
        saved@ == n@,
        saved.intact(key) == n.intact(key),
        opened.img() == saved.img(),
        opened.layout == layout_of(saved.img()),
        forall|t: Tree, b: Base| #[trigger]
            database(saved.img(), t, b) ==> opened.wf() && entries(opened.tree@) == entries(t),
        finds(opened@, opened.intact(key), key, r),
    ensures
        r matches Ok(v) && v.len() == 1 && v[0]@ == value,
{
    law_reopen(saved);
    lemma_main(saved.img(), saved.layout);
}

/// A page that was changed, but for its hash, is taken for right only where two different
/// contents have the same hash.
pub proof fn law_change_is_noticed(a: Seq<u8>, b: Seq<u8>, lay: Layout, p: int)
    requires
        lay.flags.integrity(),
        lay.sealed(a, p),
        lay.sealed(b, p),
        page(a, lay.ps(), p).subrange(lay.payload as int, lay.ps()) == page(
            b,
            lay.ps(),
            p,
        ).subrange(lay.payload as int, lay.ps()),
    ensures
        sha256(page(a, lay.ps(), p).subrange(0, lay.payload as int)) == sha256(
            page(b, lay.ps(), p).subrange(0, lay.payload as int),
        ),
{
}

/// A page that was made final has the type that it had without the mark of a dirty page, the
/// same contents, and the right hash; making it final once more changes nothing of that.
pub proof fn law_finalized(a: Seq<u8>, b: Seq<u8>, c: Seq<u8>, lay: Layout, p: int)
    requires
        lay.sane(),
        in_img(a, lay.ps(), p),
        finished(a, b, lay, p),
        finished(b, c, lay, p),
    ensures
        page_type(b, lay, p) as u16 == page_type(a, lay, p) as u16 & !PAGE_DIRTY,
        forall|i: int|
            2 <= i < lay.payload ==> #[trigger] page(b, lay.ps(), p)[i] == page(a, lay.ps(), p)[i],
        lay.sealed(b, p),
        page_type(c, lay, p) == page_type(b, lay, p),
        forall|i: int|
            2 <= i < lay.payload ==> #[trigger] page(c, lay.ps(), p)[i] == page(b, lay.ps(), p)[i],
{
    let x = page_type(a, lay, p) as u16;
    assert(x % 0x8000u16 == x & !0x8000u16) by (bit_vector);
    let n = lay.payload as int;
    lemma_page_len(a, lay.ps(), p);
    lemma_page_len(b, lay.ps(), p);
    lemma_page_len(c, lay.ps(), p);
    let (pa, pb, pc) = (page(a, lay.ps(), p), page(b, lay.ps(), p), page(c, lay.ps(), p));
    assert forall|i: int| 2 <= i < n implies #[trigger] pb[i] == pa[i] by {
        assert(pb.subrange(2, n)[i - 2] == pa.subrange(2, n)[i - 2]);
    }
    assert forall|i: int| 2 <= i < n implies #[trigger] pc[i] == pb[i] by {
        assert(pc.subrange(2, n)[i - 2] == pb.subrange(2, n)[i - 2]);
    }
}

/// Nothing keeps a database from being opened.
pub proof fn law_database_opens(img: Seq<u8>, t: Tree, b: Base)
    requires
        database(img, t, b),
    ensures
        fault(img) is None,
{
    lemma_no_fault(img, t, b);
}

} // verus!
