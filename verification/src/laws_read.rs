//! What holds of reading: what searches and cursors give, set against the map that the
//! database is and against the order of bytes.
use crate::contents::{lemma_place, place};
use crate::db::Rmdb;
use crate::error::RmdbError;
use crate::laws::law_walk;
use crate::order::{law_byte_order, lemma_lt_apart, lemma_lt_irreflexive, lemma_lt_transitive, lt};
use crate::path::is_key;
use crate::tree::{sorted, Entry};
use crate::txn::{finds, lemma_chain_end, lemma_intact, RmdbCursor};
use vstd::prelude::*;

verus! {

/// A cursor that came from one at an entry, or before the first of some, is at an entry.
proof fn lemma_at(
    c: RmdbCursor<'_>,
    d: RmdbCursor<'_>,
    r: Result<(&[u8], Vec<&[u8]>), RmdbError>,
) -> (i: int)
    requires
        c.db().sound(),
        c.fresh() && c.db()@ != Map::<Seq<u8>, Seq<u8>>::empty() || exists|i: int| #[trigger]
            c.at(i),
        d.stepped(c, r) || d.shown(c, r),
    ensures
        d.txn == c.txn,
        d.at(i),
        0 <= i < c.es().len(),
        r is Ok ==> c.es()[i].2.right && r->Ok_0.0@ == c.es()[i].0 && r->Ok_0.1.len() == 1
            && r->Ok_0.1[0]@ == c.es()[i].1,
        c.fresh() ==> i == 0,
        c.es()[i].2.right ==> r is Ok || (r matches Err(e) && e is KeyNotFound),
        d.stepped(c, r) && (r matches Err(e) && e is KeyNotFound) && !c.fresh() ==> i + 1
            == c.es().len(),
{
    let es = c.es();
    let db = c.db();
    if exists|i: int| #[trigger] c.at(i) {
        let i = choose|i: int| #[trigger] c.at(i);
        lemma_chain_end(db, crate::fetch::nums(c.cursor@), i);
        if d.shown(c, r) {
            assert(c.at(i));
            assert(d.at(i));
            i
        } else if i + 1 < es.len() {
            assert(c.at(i));
            assert(d.at(i + 1));
            i + 1
        } else {
            assert(c.at(i));
            assert(d.at(i));
            i
        }
    } else {
        if es.len() == 0 {
            assert(db@ =~= Map::<Seq<u8>, Seq<u8>>::empty());
        }
        assert(d.at(0));
        0
    }
}

/// The keys and values that the entries are, as a map.
proof fn lemma_entry(db: Rmdb, i: int)
    requires
        db.sound(),
        0 <= i < crate::tree::entries(db.tree@).len(),
    ensures
        db@.dom().contains(crate::tree::entries(db.tree@)[i].0),
        db@[crate::tree::entries(db.tree@)[i].0] == crate::tree::entries(db.tree@)[i].1,
{
    lemma_place(crate::tree::entries(db.tree@), i);
}

/// A cursor gives what the database holds: where it reads an entry, the key is one of the
/// database's, and the value is the whole of that key's. It is then at an entry.
pub proof fn law_cursor_entry(
    c: RmdbCursor<'_>,
    d: RmdbCursor<'_>,
    r: Result<(&[u8], Vec<&[u8]>), RmdbError>,
)
    requires
        c.db().sound(),
        c.fresh() && c.db()@ != Map::<Seq<u8>, Seq<u8>>::empty() || exists|i: int| #[trigger]
            c.at(i),
        d.stepped(c, r) || d.shown(c, r),
    ensures
        d.db() == c.db(),
        exists|i: int| #[trigger] d.at(i),
        r matches Ok((key, val)) ==> c.db()@.dom().contains(key@) && val.len() == 1 && val[0]@
            == c.db()@[key@],
{
    let i = lemma_at(c, d, r);
    lemma_entry(c.db(), i);
}

/// What a cursor reads of a key is what a search for the key finds.
pub proof fn law_cursor_and_search(
    c: RmdbCursor<'_>,
    d: RmdbCursor<'_>,
    r: Result<(&[u8], Vec<&[u8]>), RmdbError>,
    found: Result<Vec<&[u8]>, RmdbError>,
)
    requires
        c.db().sound(),
        c.fresh() && c.db()@ != Map::<Seq<u8>, Seq<u8>>::empty() || exists|i: int| #[trigger]
            c.at(i),
        d.stepped(c, r) || d.shown(c, r),
        r is Ok,
        finds(c.db()@, c.db().intact(r->Ok_0.0@), r->Ok_0.0@, found),
    ensures
        found matches Ok(v) ==> v.len() == 1 && r->Ok_0.1.len() == 1 && v[0]@ == r->Ok_0.1[0]@,
        found matches Err(e) ==> e is IntegrityCheck,
        c.db().readable() ==> found is Ok,
{
    law_cursor_entry(c, d, r);
    let i = lemma_at(c, d, r);
    if c.db().readable() {
        assert(c.es()[i].0 == r->Ok_0.0@);
        lemma_intact(c.db(), r->Ok_0.0@);
    }
}

/// The keys that a cursor gives ascend: at the first place where one and the next differ, the
/// one has ended or has the lesser byte. No other key of the database is between the two,
/// and where a cursor finds no further key, none is behind.
pub proof fn law_cursor_ascends(
    a: RmdbCursor<'_>,
    b: RmdbCursor<'_>,
    c: RmdbCursor<'_>,
    r: Result<(&[u8], Vec<&[u8]>), RmdbError>,
    s: Result<(&[u8], Vec<&[u8]>), RmdbError>,
    other: Seq<u8>,
)
    requires
        a.db().sound(),
        a.fresh() && a.db()@ != Map::<Seq<u8>, Seq<u8>>::empty() || exists|i: int| #[trigger]
            a.at(i),
        b.stepped(a, r) || b.shown(a, r),
        r is Ok,
        c.stepped(b, s),
        a.db()@.dom().contains(other),
    ensures
        s is Ok ==> {
            let k = r->Ok_0.0@;
            let n = s->Ok_0.0@;
            &&& exists|i: int|
                0 <= i <= k.len() && i < n.len() && #[trigger] k.take(i) == n.take(i) && (i
                    == k.len() || k[i] < n[i])
            &&& {
                ||| other == k
                ||| other == n
                ||| exists|i: int|
                    0 <= i <= other.len() && i < k.len() && #[trigger] other.take(i) == k.take(i)
                        && (i == other.len() || other[i] < k[i])
                ||| exists|i: int|
                    0 <= i <= n.len() && i < other.len() && #[trigger] n.take(i) == other.take(i)
                        && (i == n.len() || n[i] < other[i])
            }
        },
        (s matches Err(e) && e is KeyNotFound) ==> {
            let k = r->Ok_0.0@;
            ||| other == k
            ||| exists|i: int|
                0 <= i <= other.len() && i < k.len() && #[trigger] other.take(i) == k.take(i) && (i
                    == other.len() || other[i] < k[i])
        },
{
    let es = a.es();
    let i = lemma_at(a, b, r);
    let k = r->Ok_0.0@;
    assert(b.at(i));
    let j = place(es, other);
    assert(is_key(es, other));
    assert(0 <= j < es.len() && es[j].0 == other);
    lemma_fresh_not_at(b, i);
    if i + 1 < es.len() {
        assert(c.at(i + 1) && c.reads(i + 1, s));
        if s is Ok {
            let key = s->Ok_0.0@;
            assert(key == es[i + 1].0);
            assert(lt(es[i].0, es[i + 1].0));
            law_byte_order(k, key);
            law_byte_order(other, k);
            law_byte_order(key, other);
            if j < i {
                assert(lt(es[j].0, es[i].0));
            } else if j > i + 1 {
                assert(lt(es[i + 1].0, es[j].0));
            }
        }
    } else {
        assert(s is Err);
        law_byte_order(other, k);
        if j < i {
            assert(lt(es[j].0, es[i].0));
        }
    }
}

/// A cursor that is at an entry is not before the first.
proof fn lemma_fresh_not_at(c: RmdbCursor<'_>, i: int)
    requires
        c.db().sound(),
        c.at(i),
    ensures
        !c.fresh(),
{
    lemma_chain_end(c.db(), crate::fetch::nums(c.cursor@), i);
}

/// A cursor begins with the least key of the database.
pub proof fn law_cursor_begins(
    c: RmdbCursor<'_>,
    d: RmdbCursor<'_>,
    r: Result<(&[u8], Vec<&[u8]>), RmdbError>,
    other: Seq<u8>,
)
    requires
        c.db().sound(),
        c.fresh(),
        d.stepped(c, r) || d.shown(c, r),
        r is Ok,
        c.db()@.dom().contains(other),
    ensures
        ({
            let k = r->Ok_0.0@;
            ||| other == k
            ||| exists|i: int|
                0 <= i <= k.len() && i < other.len() && #[trigger] k.take(i) == other.take(i) && (i
                    == k.len() || k[i] < other[i])
        }),
{
    let es = c.es();
    assert(is_key(es, other));
    let j = place(es, other);
    assert(0 <= j < es.len() && es[j].0 == other);
    law_byte_order(r->Ok_0.0@, other);
    if j > 0 {
        assert(lt(es[0].0, es[j].0));
    }
}

/// There are as many entries as keys.
proof fn lemma_count(es: Seq<Entry>, m: Map<Seq<u8>, Seq<u8>>)
    requires
        sorted(es),
        m == crate::contents::contents(es),
    ensures
        m.dom().finite(),
        m.dom().len() == es.len(),
{
    let keys = Seq::new(es.len(), |i: int| es[i].0);
    assert forall|i: int, j: int| 0 <= i < j < keys.len() implies keys[i] != keys[j] by {
        assert(lt(es[i].0, es[j].0));
        lemma_lt_irreflexive(es[i].0);
    }
    assert(keys.no_duplicates());
    keys.unique_seq_to_set();
    assert forall|k: Seq<u8>| keys.to_set().contains(k) == m.dom().contains(k) by {
        if keys.to_set().contains(k) {
            let i = choose|i: int| 0 <= i < keys.len() && keys[i] == k;
            assert(es[i].0 == k);
        }
        if m.dom().contains(k) {
            let i = place(es, k);
            assert(is_key(es, k));
            assert(0 <= i < es.len() && es[i].0 == k);
            assert(keys[i] == k);
        }
    }
    assert(keys.to_set() =~= m.dom());
}

/// A cursor that is moved on again and again comes to as many entries as the database has keys,
/// and then to none. Each is a key of the database with its whole value, unless its hash is
/// wrong, and a later key has, at the first place where it differs from an earlier one, the
/// greater byte or goes on where the other has ended.
pub proof fn law_walk_in_order(
    cs: Seq<RmdbCursor<'_>>,
    rs: Seq<Result<(&[u8], Vec<&[u8]>), RmdbError>>,
    j: int,
    k: int,
)
    requires
        cs.len() == rs.len() + 1,
        cs[0].fresh(),
        cs[0].db().sound(),
        cs[0].db()@ != Map::<Seq<u8>, Seq<u8>>::empty(),
        forall|i: int| 0 <= i < rs.len() ==> #[trigger] cs[i + 1].stepped(cs[i], rs[i]),
        0 <= j < k < rs.len(),
    ensures
        cs[0].db()@.dom().finite(),
        k < cs[0].db()@.dom().len() ==> rs[k] is Ok || (rs[k] matches Err(e) && e is IntegrityCheck),
        k < cs[0].db()@.dom().len() && cs[0].db().readable() ==> rs[k] is Ok,
        k >= cs[0].db()@.dom().len() ==> (rs[k] matches Err(e) && e is KeyNotFound),
        rs[k] matches Ok((key, val)) ==> cs[0].db()@.dom().contains(key@) && val.len() == 1
            && val[0]@ == cs[0].db()@[key@],
        rs[j] is Ok && rs[k] is Ok ==> {
            let a = rs[j]->Ok_0.0@;
            let b = rs[k]->Ok_0.0@;
            exists|i: int|
                0 <= i <= a.len() && i < b.len() && #[trigger] a.take(i) == b.take(i) && (i
                    == a.len() || a[i] < b[i])
        },
{
    let db = cs[0].db();
    let es = cs[0].es();
    lemma_count(es, db@);
    if es.len() == 0 {
        assert(db@ =~= Map::<Seq<u8>, Seq<u8>>::empty());
    }
    law_walk(cs, rs, j);
    law_walk(cs, rs, k);
    if k < es.len() {
        if db.readable() {
            assert(es[k].2.right);
        }
        lemma_entry(db, k);
        assert(lt(es[j].0, es[k].0));
        law_byte_order(es[j].0, es[k].0);
    }
}

/// A cursor that is moved on as often as the database has keys meets every key.
pub proof fn law_walk_meets_all(
    cs: Seq<RmdbCursor<'_>>,
    rs: Seq<Result<(&[u8], Vec<&[u8]>), RmdbError>>,
    key: Seq<u8>,
)
    requires
        cs.len() == rs.len() + 1,
        cs[0].fresh(),
        cs[0].db().readable(),
        forall|i: int| 0 <= i < rs.len() ==> #[trigger] cs[i + 1].stepped(cs[i], rs[i]),
        rs.len() >= cs[0].db()@.dom().len(),
        cs[0].db()@.dom().contains(key),
    ensures
        exists|k: int|
            0 <= k < rs.len() && ((#[trigger] rs[k]) matches Ok((met, val)) && met@ == key
                && val.len() == 1 && val[0]@ == cs[0].db()@[key]),
{
    let db = cs[0].db();
    let es = cs[0].es();
    lemma_count(es, db@);
    assert(is_key(es, key));
    let k = place(es, key);
    assert(0 <= k < es.len() && es[k].0 == key);
    law_walk(cs, rs, k);
    assert(es[k].2.right);
    lemma_entry(db, k);
    assert(rs[k] is Ok && rs[k]->Ok_0.0@ == key);
}

/// A cursor can be set to exactly the keys of the database. Else it is told whether the key
/// comes before all of them or behind all of them, byte by byte.
pub proof fn law_set_to(
    c: RmdbCursor<'_>,
    d: RmdbCursor<'_>,
    key: Seq<u8>,
    r: Result<(), RmdbError>,
)
    requires
        c.db().sound(),
        d.placed(c, key, r),
    ensures
        d.db() == c.db(),
        r is Ok <==> c.db()@.dom().contains(key),
        r is Ok ==> exists|i: int| #[trigger] d.at(i),
        r is Err ==> d.cursor == c.cursor,
        c.db()@ == Map::<Seq<u8>, Seq<u8>>::empty() ==> (r matches Err(e) && e is KeyNotFound),
        (r matches Err(e) && e is KeyTooSmall) <==> c.db()@ != Map::<Seq<u8>, Seq<u8>>::empty()
            && forall|other: Seq<u8>| #[trigger]
            c.db()@.dom().contains(other) ==> (exists|i: int|
                    0 <= i <= key.len() && i < other.len() && #[trigger] key.take(i) == other.take(i) && (i
                        == key.len() || key[i] < other[i])),
        (r matches Err(e) && e is KeyTooBig) <==> c.db()@ != Map::<Seq<u8>, Seq<u8>>::empty()
            && forall|other: Seq<u8>| #[trigger]
            c.db()@.dom().contains(other) ==> (exists|i: int|
                    0 <= i <= other.len() && i < key.len() && #[trigger] other.take(i) == key.take(i) && (i
                        == other.len() || other[i] < key[i])),
        r matches Err(e) ==> e is KeyTooSmall || e is KeyTooBig || e is KeyNotFound,
{
    let es = c.es();
    let db = c.db();
    if es.len() == 0 {
        assert(db@ =~= Map::<Seq<u8>, Seq<u8>>::empty());
    } else {
        lemma_entry(db, 0);
        lemma_entry(db, es.len() - 1);
        assert(db@ != Map::<Seq<u8>, Seq<u8>>::empty());
    }
    if r is Ok {
        assert(d.at(place(es, key)));
    }
    assert forall|other: Seq<u8>| #[trigger] db@.dom().contains(other) implies (crate::path::too_small(
        es,
        key,
    ) ==> lt(key, other)) && (crate::path::too_big(es, key) ==> lt(other, key)) by {
        assert(is_key(es, other));
        let j = place(es, other);
        assert(0 <= j < es.len() && es[j].0 == other);
        if crate::path::too_small(es, key) && j > 0 {
            assert(lt(es[0].0, es[j].0));
            lemma_lt_transitive(key, es[0].0, other);
        }
        if crate::path::too_big(es, key) && j + 1 < es.len() {
            assert(lt(es[j].0, es[es.len() - 1].0));
            lemma_lt_transitive(other, es.last().0, key);
        }
    }
    assert forall|other: Seq<u8>| #[trigger] db@.dom().contains(other) implies ({
        &&& lt(key, other) <==> exists|i: int|
            0 <= i <= key.len() && i < other.len() && #[trigger] key.take(i) == other.take(i) && (i
                == key.len() || key[i] < other[i])
        &&& lt(other, key) <==> exists|i: int|
            0 <= i <= other.len() && i < key.len() && #[trigger] other.take(i) == key.take(i) && (i
                == other.len() || other[i] < key[i])
    }) by {
        law_byte_order(key, other);
        law_byte_order(other, key);
    }
    if es.len() > 0 {
        let (x, y) = (es[0].0, es.last().0);
        assert(db@.dom().contains(x) && db@.dom().contains(y));
        if lt(key, x) {
            lemma_lt_apart(key, x);
            if lt(y, key) {
                lemma_lt_transitive(y, key, x);
                if es.len() > 1 {
                    assert(lt(es[0].0, es[es.len() - 1].0));
                    lemma_lt_apart(x, y);
                } else {
                    lemma_lt_irreflexive(x);
                }
            }
        }
        if db@.dom().contains(key) {
            lemma_lt_irreflexive(key);
        }
    }
}

/// Where a cursor was set to a key, its current entry is that key with the whole of its
/// value.
pub proof fn law_set_and_read(
    c: RmdbCursor<'_>,
    d: RmdbCursor<'_>,
    f: RmdbCursor<'_>,
    key: Seq<u8>,
    r: Result<(), RmdbError>,
    s: Result<(&[u8], Vec<&[u8]>), RmdbError>,
)
    requires
        c.db().sound(),
        d.placed(c, key, r),
        r is Ok,
        f.shown(d, s),
    ensures
        s matches Ok((k, val)) ==> k@ == key && val.len() == 1 && val[0]@ == c.db()@[key],
        s matches Err(e) ==> e is IntegrityCheck,
        c.db().readable() ==> s is Ok,
{
    let es = c.es();
    let i = place(es, key);
    assert(is_key(es, key));
    assert(0 <= i < es.len() && es[i].0 == key);
    assert(d.at(i));
    lemma_entry(c.db(), i);
    if c.db().readable() {
        assert(es[i].2.right);
    }
}

/// A search gives the whole value of a key of the database, or tells that there is no such
/// key. Where all hashes are right, it never fails otherwise.
pub proof fn law_search(db: Rmdb, key: Seq<u8>, r: Result<Vec<&[u8]>, RmdbError>)
    requires
        db.sound(),
        finds(db@, db.intact(key), key, r),
    ensures
        r matches Ok(v) ==> db@.dom().contains(key) && v.len() == 1 && v[0]@ == db@[key],
        (r matches Err(e) && e is KeyNotFound) <==> !db@.dom().contains(key),
        r matches Err(e) ==> e is KeyNotFound || e is IntegrityCheck,
        db.readable() && db@.dom().contains(key) ==> r is Ok,
{
    if db.readable() && db@.dom().contains(key) {
        lemma_intact(db, key);
    }
}

} // verus!
