//! What holds of the bytes of a file: where keys, values, pointers and hashes stand.
use crate::bytes::{in_img, law_pages, lemma_page_len, page, u16_at, u32_at};
use crate::contents::{contents, marks};
use crate::db::{lemma_main, Rmdb};
use crate::error::RmdbError;
use crate::fetch::{
    cell_data, chain_after, first_below, is_far, key_in, leftmost, lemma_node_hit, node_search,
    nums, page_search, search, sibling, sum_in, value_in, Hit, Next, Sibling,
};
use crate::freemap::map_size;
use crate::hash::sha256;
use crate::laws_size::{law_flag_bits, law_payload};
use crate::layout::Layout;
use crate::leaf::blank_around;
use crate::order::{lemma_lt_irreflexive, lt};
use crate::path::{good, is_key, slot, way};
use crate::saved::is_index;
use crate::tree::{entries, has_page, height, leads, lemma_holds_sub, part, Tree};
use crate::txn::{finds, lemma_found, reads_out, RmdbCursor};
use crate::wtxn::{lemma_all_but, lemma_basics, RmdbWTxn};
use vstd::prelude::*;

verus! {

/// Where page `p` begins and ends.
proof fn lemma_bounds(img: Seq<u8>, ps: int, p: int)
    requires
        0 <= p,
        (p + 1) * ps <= img.len(),
        ps >= 0,
    ensures
        0 <= p * ps,
        p * ps + ps <= img.len(),
{
    assert(0 <= p * ps && (p + 1) * ps == p * ps + ps) by (nonlinear_arith)
        requires
            0 <= p,
            ps >= 0,
    ;
}

/// The bytes of the leaf of a key, in an image that holds the tree.
proof fn lemma_leaf_bytes(img: Seq<u8>, lay: Layout, root: int, t: Tree, key: Seq<u8>)
    requires
        lay.sane(),
        good(img, lay, root, t),
        is_key(entries(t), key),
    ensures
        ({
            let p = marks(entries(t))[key].page;
            let val = contents(entries(t))[key];
            let ps = lay.pagesize as int;
            let pg = img.subrange(p * ps, p * ps + ps);
            let at = (key.len() as int + 13) / 4 * 4;
            let end = if lay.flags.bits % 2 == 1 {
                ps - 32
            } else {
                ps
            };
            let l = part(t, way(t, key).push(slot(t, key)));
            &&& 1 <= p
            &&& 0 <= p * ps
            &&& p * ps + ps <= img.len()
            &&& l.pg() == p
            &&& pg[0] == 8 && pg[1] == 0 && pg[2] == 1 && pg[3] == 0 && pg[4] == 8 && pg[5] == 0
            &&& pg[8] + 256 * (pg[9] % 128) == key.len()
            &&& pg.subrange(10, 10 + key.len() as int) == key
            &&& pg[9] >= 128 <==> l->count != 0
            &&& pg[9] < 128 ==> {
                &&& pg[at] + 256 * pg[at + 1] == val.len()
                &&& at + 2 + val.len() <= end
                &&& pg.subrange(at + 2, at + 2 + val.len()) == val
            }
            &&& pg[9] >= 128 ==> {
                let first = pg[at + 4] + 256 * pg[at + 5] + 65536 * pg[at + 6] + 16777216 * pg[at
                    + 7];
                &&& pg[at] + 256 * pg[at + 1] + 65536 * pg[at + 2] + 16777216 * pg[at + 3]
                    == val.len()
                &&& 1 <= first
                &&& 0 <= first * ps
                &&& first * ps + val.len() <= img.len()
                &&& img.subrange(first * ps, first * ps + val.len()) == val
                &&& at + 8 <= end
                &&& lay.flags.bits % 2 == 1 ==> at + 40 <= end
            }
            &&& marks(entries(t))[key].right <==> (pg[9] >= 128 && lay.flags.bits % 2 == 1
                ==> pg.subrange(at + 8, at + 40) == sha256(val))
        }),
{
    lemma_found(img, lay, root, t, key);
    let l = part(t, way(t, key).push(slot(t, key)));
    let p = l.pg();
    let ps = lay.ps();
    let val = l->val;
    law_payload(ps, lay.flags);
    law_pages(img, ps, p, 0);
    lemma_bounds(img, ps, p);
    lemma_page_len(img, ps, p);
    let pg = page(img, ps, p);
    let at = (key.len() as int + 13) / 4 * 4;
    assert(crate::tree::data_ptr(key.len() as int) == at);
    if l->count != 0 {
        let first = l->first;
        let count = l->count;
        law_pages(img, ps, first, val.len() as int);
        law_pages(img, ps, first + count - 1, val.len() as int);
        assert(0 <= first * ps && first * ps + val.len() <= (first + count - 1 + 1) * ps)
            by (nonlinear_arith)
            requires
                1 <= first,
                ps >= 0,
                val.len() <= count * ps,
        ;
    }
}

/// The leaf of a key, byte by byte: a page that begins with its type, one key, and where the
/// cell of the key is. The cell has the length of the key, the key, and, from the next
/// multiple of four on, the value with its length; or, where the highest bit of the key's
/// length is set, the length of the value, the page where it begins, and, with hashes, the
/// hash of the whole value.
pub proof fn law_leaf_bytes(db: Rmdb, key: Seq<u8>)
    requires
        db.sound(),
        db@.dom().contains(key),
    ensures
        ({
            let img = db.wr.mmap@;
            let p = db.marks()[key].page;
            let ps = db.layout.pagesize as int;
            let pg = img.subrange(p * ps, p * ps + ps);
            let at = (key.len() as int + 13) / 4 * 4;
            let hashed = db.layout.flags.bits % 2 == 1;
            &&& 1 <= p
            &&& p * ps + ps <= img.len()
            &&& pg[0] == 8 && pg[1] == 0 && pg[2] == 1 && pg[3] == 0 && pg[4] == 8 && pg[5] == 0
            &&& pg[8] + 256 * (pg[9] % 128) == key.len()
            &&& pg.subrange(10, 10 + key.len() as int) == key
            &&& pg[9] < 128 ==> {
                &&& pg[at] + 256 * pg[at + 1] == db@[key].len()
                &&& pg.subrange(at + 2, at + 2 + db@[key].len()) == db@[key]
                &&& at + 2 + db@[key].len() <= (if hashed {
                    ps - 32
                } else {
                    ps
                })
            }
            &&& pg[9] >= 128 ==> {
                let first = pg[at + 4] + 256 * pg[at + 5] + 65536 * pg[at + 6] + 16777216 * pg[at
                    + 7];
                &&& pg[at] + 256 * pg[at + 1] + 65536 * pg[at + 2] + 16777216 * pg[at + 3]
                    == db@[key].len()
                &&& 1 <= first
                &&& first * ps + db@[key].len() <= img.len()
                &&& img.subrange(first * ps, first * ps + db@[key].len()) == db@[key]
            }
            &&& db.intact(key) <==> (hashed ==> {
                &&& pg.subrange(ps - 32, ps) == sha256(pg.subrange(0, ps - 32))
                &&& pg[9] >= 128 ==> pg.subrange(at + 8, at + 40) == sha256(db@[key])
            })
        }),
{
    lemma_leaf_bytes(db.img(), db.layout, db.rootpage as int, db.tree@, key);
    law_payload(db.layout.ps(), db.layout.flags);
    let p = db.marks()[key].page;
    law_pages(db.img(), db.layout.ps(), p, 0);
}

/// The leaf that a key gets with its value: the value is in the leaf where it finds room
/// there, else in pages of its own, with the hash of all its bytes in the leaf.
pub proof fn law_added_bytes(
    s: RmdbWTxn,
    n: RmdbWTxn,
    key: Seq<u8>,
    value: Seq<u8>,
    r: Result<(), RmdbError>,
)
    requires
        s.inv(),
        n.added(s, key, value, r),
        r is Ok,
    ensures
        ({
            let img = n.rmdb.wr.mmap@;
            let p = n.marks()[key].page;
            let ps = s.rmdb.layout.pagesize as int;
            let pg = img.subrange(p * ps, p * ps + ps);
            let at = (key.len() as int + 13) / 4 * 4;
            let hashed = s.rmdb.layout.flags.bits % 2 == 1;
            let far = value.len() > ps || value.len() + (key.len() as int + 3) / 4 * 4 + (if hashed {
                72int
            } else {
                8int
            }) >= ps;
            &&& n@[key] == value
            &&& 1 <= p
            &&& p * ps + ps <= img.len()
            &&& pg[8] + 256 * (pg[9] % 128) == key.len()
            &&& pg.subrange(10, 10 + key.len() as int) == key
            &&& pg[9] >= 128 <==> far
            &&& !far ==> {
                &&& pg[at] + 256 * pg[at + 1] == value.len()
                &&& pg.subrange(at + 2, at + 2 + value.len()) == value
            }
            &&& far ==> {
                let first = pg[at + 4] + 256 * pg[at + 5] + 65536 * pg[at + 6] + 16777216 * pg[at
                    + 7];
                &&& pg[at] + 256 * pg[at + 1] + 65536 * pg[at + 2] + 16777216 * pg[at + 3]
                    == value.len()
                &&& first * ps + value.len() <= img.len()
                &&& img.subrange(first * ps, first * ps + value.len()) == value
                &&& hashed ==> pg.subrange(at + 8, at + 40) == sha256(value)
            }
        }),
{
    lemma_basics(s);
    lemma_basics(n);
    let lay = s.lay();
    let ps = s.ps();
    law_payload(ps, lay.flags);
    assert(n@.dom().contains(key));
    lemma_leaf_bytes(n.img(), lay, n.rootpage as int, n.tree@, key);
    let l = part(n.tree@, way(n.tree@, key).push(slot(n.tree@, key)));
    lemma_found(n.img(), lay, n.rootpage as int, n.tree@, key);
    crate::fetch::lemma_leaf_no(
        n.img(),
        lay,
        n.tree@,
        crate::tree::height(n.tree@),
        true,
        way(n.tree@, key).push(slot(n.tree@, key)),
        key,
    );
    let v = value.len() as int;
    assert(v > ps ==> (v + ps - 1) / ps >= 1) by (nonlinear_arith)
        requires
            ps >= 1,
            v >= 0,
    ;
}

/// Page 0 of a saved database, byte by byte: the letters RMDB, then as little-endian numbers
/// the version 3, the flags, the size of a page, the number of pages, the root, and where the
/// map of free pages begins and how many pages it has. With hashes, page 0 ends in the hash of
/// the rest of it, the root in that of the rest of the root, and the last page of the map in
/// that of the map.
pub proof fn law_page_zero(db: Rmdb)
    requires
        db.wf(),
    ensures
        ({
            let img = db.wr.mmap@;
            let ps = db.layout.pagesize as int;
            let root = db.rootpage as int;
            let map = img[24] + 256 * img[25] + 65536 * img[26] + 16777216 * img[27];
            let span = img[28] + 256 * img[29] + 65536 * img[30] + 16777216 * img[31];
            let size = img[map * ps + 4] + 256 * img[map * ps + 5] + 65536 * img[map * ps + 6]
                + 16777216 * img[map * ps + 7];
            &&& 128 <= ps <= img.len()
            &&& img[0] == 82 && img[1] == 77 && img[2] == 68 && img[3] == 66
            &&& img[4] == 3 && img[5] == 0 && img[6] == 0 && img[7] == 0
            &&& img[8] + 256 * img[9] + 65536 * img[10] + 16777216 * img[11]
                == db.layout.flags.bits
            &&& img[12] + 256 * img[13] + 65536 * img[14] + 16777216 * img[15] == ps
            &&& img[16] + 256 * img[17] + 65536 * img[18] + 16777216 * img[19]
                <= db.wr.num_pages
            &&& img[20] + 256 * img[21] + 65536 * img[22] + 16777216 * img[23] == root
            &&& db.wr.num_pages * ps <= img.len()
            &&& 1 <= root < db.wr.num_pages
            &&& 1 <= map && 1 <= span && map + span <= db.wr.num_pages
            &&& 0 <= map * ps
            &&& map * ps + 8 + size <= img.len()
            &&& db.layout.flags.bits % 2 == 1 ==> {
                &&& img.subrange(ps - 32, ps) == sha256(img.subrange(0, ps - 32))
                &&& img.subrange(root * ps + ps - 32, root * ps + ps) == sha256(
                    img.subrange(root * ps, root * ps + ps - 32),
                )
                &&& img.subrange((map + span) * ps - 32, (map + span) * ps) == sha256(
                    img.subrange(map * ps, map * ps + 8 + size),
                )
            }
        }),
{
    let img = db.img();
    let lay = db.layout;
    let ps = lay.ps();
    let root = db.rootpage as int;
    let b = db.base();
    let t = db.tree@;
    law_payload(ps, lay.flags);
    law_pages(img, ps, 0, 0);
    lemma_bounds(img, ps, 0);
    lemma_main(img, lay);
    let zero = page(img, ps, 0);
    assert(zero =~= img.subrange(0, ps));
    assert forall|i: int| 0 <= i < ps implies zero[i] == img[i] by {}
    assert(zero[24] == img[24] && zero[25] == img[25] && zero[26] == img[26] && zero[27] == img[27]);
    assert(zero[28] == img[28] && zero[29] == img[29] && zero[30] == img[30] && zero[31] == img[31]);
    crate::tree::lemma_page_root(t);
    assert(has_page(t, root));
    law_pages(img, ps, root, 0);
    lemma_bounds(img, ps, root);
    let size = map_size(img, lay, b.fp);
    law_pages(img, ps, b.fp, 8 + size);
    lemma_bounds(img, ps, b.fp);
    law_pages(img, ps, b.fp + b.fs - 1, 0);
    lemma_bounds(img, ps, b.fp + b.fs - 1);
    let mp = page(img, ps, b.fp);
    assert(mp[4] == img[b.fp * ps + 4] && mp[5] == img[b.fp * ps + 5] && mp[6] == img[b.fp * ps + 6]
        && mp[7] == img[b.fp * ps + 7]);
    let (n, m) = (db.np(), img.len() as int);
    assert(n * ps <= m) by (nonlinear_arith)
        requires
            n <= m / ps,
            ps >= 1,
    ;
    let last = b.fp + b.fs - 1;
    assert(last * ps + ps == (b.fp + b.fs) * ps) by (nonlinear_arith)
        requires
            last == b.fp + b.fs - 1,
    ;
    if lay.flags.integrity() {
        assert(zero.subrange(ps - 32, ps) =~= img.subrange(ps - 32, ps));
        assert(zero.subrange(0, ps - 32) =~= img.subrange(0, ps - 32));
        let rp = page(img, ps, root);
        assert(rp.subrange(ps - 32, ps) =~= img.subrange(root * ps + ps - 32, root * ps + ps));
        assert(rp.subrange(0, ps - 32) =~= img.subrange(root * ps, root * ps + ps - 32));
        let lp = page(img, ps, last);
        assert(lp.subrange(ps - 32, ps) =~= img.subrange(last * ps + ps - 32, last * ps + ps));
    }
}

/// A node, byte by byte: a page that begins with its type, which tells the root from others,
/// the number of its children, and then their pages, four bytes each.
pub proof fn law_node_bytes(db: Rmdb, q: Seq<int>, i: int)
    requires
        db.sound(),
        leads(db.tree@, q),
        part(db.tree@, q) is Node,
        0 <= i < part(db.tree@, q).kids().len(),
    ensures
        ({
            let img = db.wr.mmap@;
            let t = part(db.tree@, q);
            let ps = db.layout.pagesize as int;
            let pg = img.subrange(t.pg() * ps, t.pg() * ps + ps);
            &&& 1 <= t.pg()
            &&& t.pg() * ps + ps <= img.len()
            &&& pg[0] == 4
            &&& q.len() == 0 ==> pg[1] == 64 && t.pg() == db.rootpage
            &&& q.len() > 0 ==> pg[1] == 0 || pg[1] == 128
            &&& pg[2] + 256 * pg[3] == t.kids().len()
            &&& pg[4 + 4 * i] + 256 * pg[5 + 4 * i] + 65536 * pg[6 + 4 * i] + 16777216 * pg[7 + 4
                * i] == t.kids()[i].pg()
            &&& 4 + 4 * t.kids().len() <= (if db.layout.flags.bits % 2 == 1 {
                ps - 32
            } else {
                ps
            })
        }),
{
    let t = part(db.tree@, q);
    let ps = db.layout.ps();
    lemma_holds_sub(db.img(), db.layout, db.tree@, q, height(db.tree@), true);
    law_payload(ps, db.layout.flags);
    law_pages(db.img(), ps, t.pg(), 0);
    lemma_bounds(db.img(), ps, t.pg());
}

/// Where all hashes are right, every node and every leaf ends in the hash of all bytes before
/// it.
pub proof fn law_page_hashes(db: Rmdb, p: int)
    requires
        db.readable(),
        db.layout.flags.bits % 2 == 1,
        is_index(db.tree@, p),
    ensures
        ({
            let img = db.wr.mmap@;
            let ps = db.layout.pagesize as int;
            &&& 1 <= p
            &&& p * ps + ps <= img.len()
            &&& img.subrange(p * ps + ps - 32, p * ps + ps) == sha256(
                img.subrange(p * ps, p * ps + ps - 32),
            )
        }),
{
    let img = db.img();
    let ps = db.layout.ps();
    law_payload(ps, db.layout.flags);
    crate::tree::lemma_index_in(img, db.layout, db.tree@, height(db.tree@), true, p);
    law_pages(img, ps, p, 0);
    lemma_bounds(img, ps, p);
    let pg = page(img, ps, p);
    assert(db.layout.sealed(img, p));
    assert(pg.subrange(ps - 32, ps) =~= img.subrange(p * ps + ps - 32, p * ps + ps));
    assert(pg.subrange(0, ps - 32) =~= img.subrange(p * ps, p * ps + ps - 32));
}

/// The page of the leaf that a search comes to.
proof fn lemma_hit(img: Seq<u8>, lay: Layout, root: int, key: Seq<u8>) -> (p: int)
    ensures
        search(img, lay, root, key) matches Hit::At(c) ==> c.len() > 0 && c.last() == p && key_in(
            img,
            lay,
            p,
        ) == Some(key),
{
    let x = search(img, lay, root, key);
    lemma_node_hit(img, lay, root, 0, key, img.len() / lay.ps() as nat);
    x->At_0.last()
}

/// The cell of a leaf from which a key and its value are read.
proof fn lemma_cell(img: Seq<u8>, lay: Layout, p: int, key: Seq<u8>, val: Seq<u8>)
    requires
        lay.sane(),
        key_in(img, lay, p) == Some(key),
        value_in(img, lay, p) == Some(val),
        sum_in(img, lay, p, val),
    ensures
        ({
            let ps = lay.pagesize as int;
            let pg = img.subrange(p * ps, p * ps + ps);
            let cell = pg[4] + 256 * pg[5];
            let at = (cell + 2 + key.len() + 3) / 4 * 4;
            &&& 0 <= p * ps
            &&& p * ps + ps <= img.len()
            &&& pg[cell] + 256 * (pg[cell + 1] % 128) == key.len()
            &&& pg.subrange(cell + 2, cell + 2 + key.len()) == key
            &&& pg[cell + 1] < 128 ==> {
                &&& pg[at] + 256 * pg[at + 1] == val.len()
                &&& pg.subrange(at + 2, at + 2 + val.len()) == val
            }
            &&& pg[cell + 1] >= 128 ==> {
                let first = pg[at + 4] + 256 * pg[at + 5] + 65536 * pg[at + 6] + 16777216 * pg[at
                    + 7];
                &&& pg[at] + 256 * pg[at + 1] + 65536 * pg[at + 2] + 16777216 * pg[at + 3]
                    == val.len()
                &&& img.subrange(first * ps, first * ps + val.len()) == val
                &&& lay.flags.bits % 2 == 1 ==> pg.subrange(at + 8, at + 40) == sha256(val)
            }
        }),
{
    let ps = lay.ps();
    law_payload(ps, lay.flags);
    law_pages(img, ps, p, 0);
    lemma_bounds(img, ps, p);
    let pg = page(img, ps, p);
    let cell = u16_at(pg, 4);
    let at = cell_data(img, lay, p);
    let kl = u16_at(pg, cell) % 0x8000;
    assert(kl == key.len());
    assert(pg[cell] + 256 * (pg[cell + 1] % 128) == kl);
    if is_far(img, lay, p) {
        let first = u32_at(pg, at + 4);
        let n = u32_at(pg, at);
        law_pages(img, ps, first, n);
        assert(0 <= first * ps) by (nonlinear_arith)
            requires
                first >= 0,
                ps >= 0,
        ;
        assert(val.len() == n);
    }
}

/// Whatever the file holds: with hashes, a search gives a value only out of a leaf whose page
/// ends in the hash of all bytes before it, and which has the key. The value is in the leaf, or
/// in other pages, and then the leaf has the hash of all its bytes.
pub proof fn law_checked_search(
    img: Seq<u8>,
    lay: Layout,
    root: int,
    key: Seq<u8>,
    r: Result<Vec<&[u8]>, RmdbError>,
) -> (p: int)
    requires
        lay.sane(),
        lay.flags.bits % 2 == 1,
        reads_out(img, lay, root, key, r),
        r is Ok,
    ensures
        r->Ok_0.len() == 1,
        ({
            let val = r->Ok_0[0]@;
            let ps = lay.pagesize as int;
            let pg = img.subrange(p * ps, p * ps + ps);
            let cell = pg[4] + 256 * pg[5];
            let at = (cell + 2 + key.len() + 3) / 4 * 4;
            &&& 0 <= p * ps
            &&& p * ps + ps <= img.len()
            &&& pg.subrange(ps - 32, ps) == sha256(pg.subrange(0, ps - 32))
            &&& pg[cell] + 256 * (pg[cell + 1] % 128) == key.len()
            &&& pg.subrange(cell + 2, cell + 2 + key.len()) == key
            &&& pg[cell + 1] < 128 ==> {
                &&& pg[at] + 256 * pg[at + 1] == val.len()
                &&& pg.subrange(at + 2, at + 2 + val.len()) == val
            }
            &&& pg[cell + 1] >= 128 ==> {
                let first = pg[at + 4] + 256 * pg[at + 5] + 65536 * pg[at + 6] + 16777216 * pg[at
                    + 7];
                &&& pg[at] + 256 * pg[at + 1] + 65536 * pg[at + 2] + 16777216 * pg[at + 3]
                    == val.len()
                &&& img.subrange(first * ps, first * ps + val.len()) == val
                &&& pg.subrange(at + 8, at + 40) == sha256(val)
            }
        }),
{
    let p = lemma_hit(img, lay, root, key);
    lemma_cell(img, lay, p, key, value_in(img, lay, p)->0);
    law_payload(lay.ps(), lay.flags);
    law_pages(img, lay.ps(), p, 0);
    p
}

/// Whatever the file holds: a cursor gives the key and the value of the leaf where it stands,
/// and with hashes a value in other pages only where the leaf has the hash of all its bytes.
pub proof fn law_cursor_bytes(
    c: RmdbCursor<'_>,
    d: RmdbCursor<'_>,
    r: Result<(&[u8], Vec<&[u8]>), RmdbError>,
)
    requires
        c.db().layout.sane(),
        !c.fresh(),
        d.shown(c, r),
        r is Ok,
    ensures
        d.cursor == c.cursor,
        r->Ok_0.1.len() == 1,
        ({
            let img = c.db().wr.mmap@;
            let ps = c.db().layout.pagesize as int;
            let p = c.cursor@.last() as int;
            let (key, val) = (r->Ok_0.0@, r->Ok_0.1[0]@);
            let pg = img.subrange(p * ps, p * ps + ps);
            let cell = pg[4] + 256 * pg[5];
            let at = (cell + 2 + key.len() + 3) / 4 * 4;
            &&& p * ps + ps <= img.len()
            &&& pg[cell] + 256 * (pg[cell + 1] % 128) == key.len()
            &&& pg.subrange(cell + 2, cell + 2 + key.len()) == key
            &&& pg[cell + 1] < 128 ==> {
                &&& pg[at] + 256 * pg[at + 1] == val.len()
                &&& pg.subrange(at + 2, at + 2 + val.len()) == val
            }
            &&& pg[cell + 1] >= 128 ==> {
                let first = pg[at + 4] + 256 * pg[at + 5] + 65536 * pg[at + 6] + 16777216 * pg[at
                    + 7];
                &&& pg[at] + 256 * pg[at + 1] + 65536 * pg[at + 2] + 16777216 * pg[at + 3]
                    == val.len()
                &&& img.subrange(first * ps, first * ps + val.len()) == val
                &&& c.db().layout.flags.bits % 2 == 1 ==> pg.subrange(at + 8, at + 40) == sha256(
                    val,
                )
            }
        }),
{
    lemma_cell(
        c.db().img(),
        c.db().layout,
        c.cursor@.last() as int,
        r->Ok_0.0@,
        r->Ok_0.1[0]@,
    );
}

/// A search for a key of the database succeeds exactly where the hashes are right: that of the
/// leaf, over all bytes before it, and that of a value in other pages, over all of it.
pub proof fn law_search_bytes(db: Rmdb, key: Seq<u8>, r: Result<Vec<&[u8]>, RmdbError>)
    requires
        db.sound(),
        db@.dom().contains(key),
        finds(db@, db.intact(key), key, r),
    ensures
        ({
            let img = db.wr.mmap@;
            let p = db.marks()[key].page;
            let ps = db.layout.pagesize as int;
            let pg = img.subrange(p * ps, p * ps + ps);
            let at = (key.len() as int + 13) / 4 * 4;
            r is Ok <==> (db.layout.flags.bits % 2 == 1 ==> {
                &&& pg.subrange(ps - 32, ps) == sha256(pg.subrange(0, ps - 32))
                &&& pg[9] >= 128 ==> pg.subrange(at + 8, at + 40) == sha256(db@[key])
            })
        }),
        r matches Ok(v) ==> v.len() == 1 && v[0]@ == db@[key],
        r matches Err(e) ==> e is IntegrityCheck,
{
    law_leaf_bytes(db, key);
}

/// A value that was changed is given out only where the hash of all its bytes is the same: with
/// hashes, two files with the same leaf of a key give values with the same hash.
pub proof fn law_value_change_is_noticed(
    a: Seq<u8>,
    b: Seq<u8>,
    lay: Layout,
    root: int,
    key: Seq<u8>,
    r: Result<Vec<&[u8]>, RmdbError>,
    s: Result<Vec<&[u8]>, RmdbError>,
    p: int,
)
    requires
        lay.sane(),
        lay.flags.bits % 2 == 1,
        reads_out(a, lay, root, key, r),
        reads_out(b, lay, root, key, s),
        r is Ok,
        s is Ok,
        search(a, lay, root, key) matches Hit::At(c) && c.last() == p,
        search(b, lay, root, key) matches Hit::At(c) && c.last() == p,
        a.subrange(p * lay.pagesize, p * lay.pagesize + lay.pagesize) == b.subrange(
            p * lay.pagesize,
            p * lay.pagesize + lay.pagesize,
        ),
    ensures
        r->Ok_0.len() == 1 && s->Ok_0.len() == 1,
        sha256(r->Ok_0[0]@) == sha256(s->Ok_0[0]@),
{
    let ps = lay.ps();
    law_payload(ps, lay.flags);
    law_pages(a, ps, p, 0);
    law_pages(b, ps, p, 0);
}

/// The same of what cursors read: two files with the same leaf give values with the same hash,
/// or the same value.
pub proof fn law_cursor_change_is_noticed(
    c: RmdbCursor<'_>,
    d: RmdbCursor<'_>,
    r: Result<(&[u8], Vec<&[u8]>), RmdbError>,
    s: Result<(&[u8], Vec<&[u8]>), RmdbError>,
    c2: RmdbCursor<'_>,
    d2: RmdbCursor<'_>,
    p: int,
)
    requires
        c.db().layout.sane(),
        c.db().layout == d.db().layout,
        c.db().layout.flags.bits % 2 == 1,
        c.cursor.len() > 0 && c.cursor@.last() == p,
        d.cursor.len() > 0 && d.cursor@.last() == p,
        c2.shown(c, r),
        d2.shown(d, s),
        r is Ok,
        s is Ok,
        c.db().wr.mmap@.subrange(
            p * c.db().layout.pagesize,
            p * c.db().layout.pagesize + c.db().layout.pagesize,
        ) == d.db().wr.mmap@.subrange(
            p * c.db().layout.pagesize,
            p * c.db().layout.pagesize + c.db().layout.pagesize,
        ),
    ensures
        r->Ok_0.0@ == s->Ok_0.0@,
        r->Ok_0.1.len() == 1 && s->Ok_0.1.len() == 1,
        sha256(r->Ok_0.1[0]@) == sha256(s->Ok_0.1[0]@),
{
    let lay = c.db().layout;
    let ps = lay.ps();
    law_payload(ps, lay.flags);
    law_pages(c.db().img(), ps, p, 0);
    law_pages(d.db().img(), ps, p, 0);
}

/// What reading the entry of a page comes to, whatever the file holds: a page outside the file,
/// one that is no leaf, one that has not just one key, and a key or a value that goes beyond
/// its page or the file are told; so is a value in other pages whose hash is wrong. All else is
/// read.
pub proof fn law_current_of_any_page(
    c: RmdbCursor<'_>,
    d: RmdbCursor<'_>,
    r: Result<(&[u8], Vec<&[u8]>), RmdbError>,
)
    requires
        c.db().layout.sane(),
        !c.fresh(),
        d.shown(c, r),
    ensures
        ({
            let img = c.db().wr.mmap@;
            let ps = c.db().layout.pagesize as int;
            let hashed = c.db().layout.flags.bits % 2 == 1;
            let end = if hashed {
                ps - 32
            } else {
                ps
            };
            let p = c.cursor@.last() as int;
            let pg = img.subrange(p * ps, p * ps + ps);
            let cell = pg[4] + 256 * pg[5];
            let len = pg[cell] + 256 * (pg[cell + 1] % 128);
            let at = (cell + 2 + len + 3) / 4 * 4;
            let first = pg[at + 4] + 256 * pg[at + 5] + 65536 * pg[at + 6] + 16777216 * pg[at + 7];
            let n = pg[at] + 256 * pg[at + 1] + 65536 * pg[at + 2] + 16777216 * pg[at + 3];
            let far = pg[cell + 1] >= 128;
            let inside = p * ps + ps <= img.len();
            let leaf = pg[0] / 8 % 2 == 1;
            let key = pg[2] == 1 && pg[3] == 0 && cell % 2 == 0 && cell + 2 + len <= end;
            let value = if far {
                at + (if hashed {
                    40int
                } else {
                    8int
                }) <= end && first * ps + n <= img.len()
            } else {
                at + 2 + pg[at] + 256 * pg[at + 1] <= end
            };
            let right = far && hashed ==> pg.subrange(at + 8, at + 40) == sha256(
                img.subrange(first * ps, first * ps + n),
            );
            &&& !inside ==> (r matches Err(e) && e is InvalidMetadata)
            &&& inside && !leaf ==> (r matches Err(e) && e is PageNotLeaf)
            &&& inside && leaf && !(key && value) ==> (r matches Err(e) && e is InvalidMetadata)
            &&& inside && leaf && key && value && !right ==> (r matches Err(e)
                && e is IntegrityCheck)
            &&& inside && leaf && key && value && right ==> r is Ok
        }),
{
    let (img, lay) = (c.db().img(), c.db().layout);
    let ps = lay.ps();
    let p = c.cursor@.last() as int;
    law_payload(ps, lay.flags);
    law_pages(img, ps, p, 0);
    assert(0 <= p * ps && (p + 1) * ps == p * ps + ps) by (nonlinear_arith)
        requires
            p >= 0,
            ps >= 0,
    ;
    let pg = page(img, ps, p);
    let cell = u16_at(pg, 4);
    let at = cell_data(img, lay, p);
    let kl = u16_at(pg, cell) % 0x8000;
    assert(pg[cell] + 256 * (pg[cell + 1] % 128) == kl);
    law_pages(img, ps, u32_at(pg, at + 4), u32_at(pg, at));
    let (lo, hi) = (pg[0], pg[1]);
    let ty = (lo + 256 * hi) as u16;
    assert(ty & 0x0008u16 == 0x0008u16 <==> lo / 8 % 2 == 1) by (bit_vector)
        requires
            ty == lo + 256 * hi,
    ;
}

/// What the first step of a cursor comes to in a file without a root, or whose root lies
/// outside of it.
pub proof fn law_first_step(
    c: RmdbCursor<'_>,
    d: RmdbCursor<'_>,
    r: Result<(&[u8], Vec<&[u8]>), RmdbError>,
)
    requires
        c.db().layout.sane(),
        c.fresh(),
        d.stepped(c, r) || d.shown(c, r),
    ensures
        c.db().rootpage == 0 ==> d.fresh() && (r matches Err(e) && e is KeyNotFound),
        c.db().rootpage > 0 && (c.db().rootpage + 1) * c.db().layout.pagesize
            > c.db().wr.mmap@.len() ==> d.fresh() && (r matches Err(e) && e is InvalidMetadata),
{
    law_pages(c.db().img(), c.db().layout.ps(), c.db().rootpage as int, 0);
}

/// What a search that came to a leaf makes of it, whatever the file holds: with hashes, a page
/// that does not end in the hash of all bytes before it is told, and so is a value in other
/// pages whose hash is wrong; a value that goes beyond its page or the file is told. All else
/// is given out.
pub proof fn law_search_of_any_leaf(
    img: Seq<u8>,
    lay: Layout,
    root: int,
    key: Seq<u8>,
    r: Result<Vec<&[u8]>, RmdbError>,
    chain: Seq<int>,
)
    requires
        lay.sane(),
        reads_out(img, lay, root, key, r),
        search(img, lay, root, key) == Hit::At(chain),
    ensures
        ({
            let ps = lay.pagesize as int;
            let hashed = lay.flags.bits % 2 == 1;
            let end = if hashed {
                ps - 32
            } else {
                ps
            };
            let p = chain.last();
            let pg = img.subrange(p * ps, p * ps + ps);
            let cell = pg[4] + 256 * pg[5];
            let len = pg[cell] + 256 * (pg[cell + 1] % 128);
            let at = (cell + 2 + len + 3) / 4 * 4;
            let first = pg[at + 4] + 256 * pg[at + 5] + 65536 * pg[at + 6] + 16777216 * pg[at + 7];
            let n = pg[at] + 256 * pg[at + 1] + 65536 * pg[at + 2] + 16777216 * pg[at + 3];
            let far = pg[cell + 1] >= 128;
            let sum = hashed ==> pg.subrange(ps - 32, ps) == sha256(pg.subrange(0, ps - 32));
            let value = if far {
                at + (if hashed {
                    40int
                } else {
                    8int
                }) <= end && first * ps + n <= img.len()
            } else {
                at + 2 + pg[at] + 256 * pg[at + 1] <= end
            };
            let right = far && hashed ==> pg.subrange(at + 8, at + 40) == sha256(
                img.subrange(first * ps, first * ps + n),
            );
            &&& p * ps + ps <= img.len()
            &&& !sum ==> (r matches Err(e) && e is IntegrityCheck)
            &&& sum && !value ==> (r matches Err(e) && e is InvalidMetadata)
            &&& sum && value && !right ==> (r matches Err(e) && e is IntegrityCheck)
            &&& sum && value && right ==> (r matches Ok(v) && v.len() == 1 && v[0]@ == (if far {
                img.subrange(first * ps, first * ps + n)
            } else {
                pg.subrange(at + 2, at + 2 + pg[at] + 256 * pg[at + 1])
            }))
        }),
{
    let ps = lay.ps();
    let p = lemma_hit(img, lay, root, key);
    law_payload(ps, lay.flags);
    law_pages(img, ps, p, 0);
    lemma_bounds(img, ps, p);
    let pg = page(img, ps, p);
    let cell = u16_at(pg, 4);
    let at = cell_data(img, lay, p);
    let kl = u16_at(pg, cell) % 0x8000;
    assert(pg[cell] + 256 * (pg[cell + 1] % 128) == kl);
    law_pages(img, ps, u32_at(pg, at + 4), u32_at(pg, at));
}

/// What a search makes of the first child of the root, whatever the file holds: a child outside
/// the file, one that is neither a leaf nor a node, and a leaf that has not just one key are
/// told. A leaf with the key is where the search ends, and where the first leaf has a greater
/// key, there is no such key.
pub proof fn law_search_child(
    img: Seq<u8>,
    lay: Layout,
    root: int,
    key: Seq<u8>,
    r: Result<Vec<&[u8]>, RmdbError>,
)
    requires
        lay.sane(),
        1 <= root,
        root * lay.pagesize + lay.pagesize <= img.len(),
        img[root * lay.pagesize] / 4 % 2 == 1,
        img[root * lay.pagesize + 2] + 256 * img[root * lay.pagesize + 3] > 0,
        reads_out(img, lay, root, key, r),
    ensures
        ({
            let ps = lay.pagesize as int;
            let pg = img.subrange(root * ps, root * ps + ps);
            let c = pg[4] + 256 * pg[5] + 65536 * pg[6] + 16777216 * pg[7];
            let kid = img.subrange(c * ps, c * ps + ps);
            let inside = c * ps + ps <= img.len();
            let leaf = kid[0] / 8 % 2 == 1;
            let node = kid[0] / 4 % 2 == 1;
            let one = kid[2] == 1 && kid[3] == 0;
            &&& !inside ==> (r matches Err(e) && e is InvalidMetadata)
            &&& inside && !leaf && !node && c > 0 ==> (r matches Err(e) && e is InvalidMetadata)
            &&& inside && leaf && !one ==> (r matches Err(e) && e is InvalidMetadata)
        }),
        ({
            let ps = lay.pagesize as int;
            let pg = img.subrange(root * ps, root * ps + ps);
            let c = pg[4] + 256 * pg[5] + 65536 * pg[6] + 16777216 * pg[7];
            key_in(img, lay, c) matches Some(k) ==> {
                &&& k == key ==> search(img, lay, root, key) == Hit::At(seq![root, c])
                &&& lt(key, k) ==> (r matches Err(e) && e is KeyNotFound)
            }
        }),
{
    reveal_with_fuel(node_search, 3);
    reveal_with_fuel(page_search, 3);
    let ps = lay.ps();
    lemma_first_child(img, lay, root);
    law_pages(img, ps, root, 0);
    let pg = page(img, ps, root);
    let c = u32_at(pg, 4);
    law_pages(img, ps, c, 0);
    assert(0 <= c * ps && (c + 1) * ps == c * ps + ps) by (nonlinear_arith)
        requires
            c >= 0,
            ps >= 0,
    ;
    let kid = page(img, ps, c);
    let (lo, hi) = (kid[0], kid[1]);
    let ty = (lo + 256 * hi) as u16;
    assert((ty & 0x0008u16 == 0x0008u16 <==> lo / 8 % 2 == 1) && (ty & 0x0004u16 == 0x0004u16 <==> lo
        / 4 % 2 == 1)) by (bit_vector)
        requires
            ty == lo + 256 * hi,
    ;
    let x = page_search(img, lay, root, c, key, ((img.len() / ps as nat) - 1) as nat);
    assert(seq![root] + seq![c] =~= seq![root, c]);
    if key_in(img, lay, c) is Some {
        lemma_lt_irreflexive(key);
    }
}

/// A search in a file whose root is a node with children goes to its first child.
proof fn lemma_first_child(img: Seq<u8>, lay: Layout, root: int)
    requires
        lay.sane(),
        1 <= root,
        root * lay.pagesize + lay.pagesize <= img.len(),
        img[root * lay.pagesize] / 4 % 2 == 1,
    ensures
        in_img(img, lay.ps(), root),
        u16_at(page(img, lay.ps(), root), 0) as u16 & 0x0004u16 == 0x0004u16,
        img.len() / lay.ps() as nat >= 2,
{
    let ps = lay.ps();
    law_pages(img, ps, root, 0);
    assert(0 <= root * ps && (root + 1) * ps == root * ps + ps && 2 * ps <= root * ps + ps)
        by (nonlinear_arith)
        requires
            root >= 1,
            ps >= 0,
    ;
    let pg = page(img, ps, root);
    assert(pg[0] == img[root * ps]);
    let (lo, hi) = (pg[0], pg[1]);
    let ty = (lo + 256 * hi) as u16;
    assert(ty & 0x0004u16 == 0x0004u16 <==> lo / 4 % 2 == 1) by (bit_vector)
        requires
            ty == lo + 256 * hi,
    ;
    let n = img.len() as int;
    assert(n / ps >= 2) by (nonlinear_arith)
        requires
            2 * ps <= n,
            ps >= 1,
    ;
}

/// The child behind the first pointer to a child of a node.
proof fn lemma_sibling(pg: Seq<u8>, lay: Layout, current: int, m: int, from: int)
    requires
        current != 0,
        0 <= from <= m,
        m + 1 < u16_at(pg, 2),
        4 + 4 * (m + 2) <= lay.payload,
        u32_at(pg, 4 + 4 * m) == current,
        forall|j: int| 0 <= j < m ==> #[trigger] u32_at(pg, 4 + 4 * j) != current,
    ensures
        sibling(pg, lay, current, from) == Sibling::Page(u32_at(pg, 4 + 4 * (m + 1))),
    decreases m - from,
{
    if from < m {
        assert(u32_at(pg, 4 + 4 * from) != current);
        lemma_sibling(pg, lay, current, m, from + 1);
    }
}

/// A step of a cursor goes to the next child of the node above, where there is one and it is a
/// leaf, whatever else the file holds.
pub proof fn law_next_sibling(
    c: RmdbCursor<'_>,
    d: RmdbCursor<'_>,
    r: Result<(&[u8], Vec<&[u8]>), RmdbError>,
    m: int,
)
    requires
        c.db().layout.sane(),
        c.cursor.len() >= 2,
        d.stepped(c, r),
        ({
            let img = c.db().wr.mmap@;
            let ps = c.db().layout.pagesize as int;
            let (up, cur) = (c.cursor@[c.cursor.len() - 2] as int, c.cursor@.last() as int);
            let pg = img.subrange(up * ps, up * ps + ps);
            let next = pg[4 * m + 8] + 256 * pg[4 * m + 9] + 65536 * pg[4 * m + 10] + 16777216 * pg[4
                * m + 11];
            let end = if c.db().layout.flags.bits % 2 == 1 {
                ps - 32
            } else {
                ps
            };
            &&& cur != 0
            &&& up * ps + ps <= img.len()
            &&& pg[0] / 4 % 2 == 1
            &&& 0 <= m && m + 1 < pg[2] + 256 * pg[3]
            &&& 4 * m + 12 <= end
            &&& forall|j: int|
                0 <= j < m ==> (#[trigger] pg[4 * j + 4]) + 256 * pg[4 * j + 5] + 65536 * pg[4 * j
                    + 6] + 16777216 * pg[4 * j + 7] != cur
            &&& pg[4 * m + 4] + 256 * pg[4 * m + 5] + 65536 * pg[4 * m + 6] + 16777216 * pg[4 * m
                + 7] == cur
            &&& next * ps + ps <= img.len()
            &&& img[next * ps] / 8 % 2 == 1
        }),
    ensures
        ({
            let img = c.db().wr.mmap@;
            let ps = c.db().layout.pagesize as int;
            let up = c.cursor@[c.cursor.len() - 2] as int;
            let pg = img.subrange(up * ps, up * ps + ps);
            &&& d.cursor.len() == c.cursor.len()
            &&& forall|i: int| 0 <= i < c.cursor.len() - 1 ==> #[trigger] d.cursor@[i] == c.cursor@[i]
            &&& d.cursor@.last() == pg[4 * m + 8] + 256 * pg[4 * m + 9] + 65536 * pg[4 * m + 10]
                + 16777216 * pg[4 * m + 11]
        }),
{
    let (img, lay) = (c.db().img(), c.db().layout);
    let ps = lay.ps();
    let chain = nums(c.cursor@);
    let ups = chain.drop_last();
    let (up, cur) = (ups.last(), chain.last());
    assert(up == c.cursor@[c.cursor.len() - 2] && cur == c.cursor@.last());
    law_payload(ps, lay.flags);
    law_pages(img, ps, up, 0);
    assert(0 <= up * ps && (up + 1) * ps == up * ps + ps) by (nonlinear_arith)
        requires
            up >= 0,
            ps >= 0,
    ;
    let pg = page(img, ps, up);
    let (lo, hi) = (pg[0], pg[1]);
    let ty = (lo + 256 * hi) as u16;
    assert(ty & 0x0004u16 == 0x0004u16 <==> lo / 4 % 2 == 1) by (bit_vector)
        requires
            ty == lo + 256 * hi,
    ;
    assert forall|j: int| 0 <= j < m implies #[trigger] u32_at(pg, 4 + 4 * j) != cur by {
        assert(pg[4 * j + 4] == pg[4 + 4 * j]);
    }
    lemma_sibling(pg, lay, cur, m, 0);
    let next = u32_at(pg, 4 + 4 * (m + 1));
    law_pages(img, ps, next, 0);
    assert(0 <= next * ps && (next + 1) * ps == next * ps + ps) by (nonlinear_arith)
        requires
            next >= 0,
            ps >= 0,
    ;
    let np = page(img, ps, next);
    assert(np[0] == img[next * ps]);
    let (lo2, hi2) = (np[0], np[1]);
    let ty2 = (lo2 + 256 * hi2) as u16;
    assert(ty2 & 0x0008u16 == 0x0008u16 <==> lo2 / 8 % 2 == 1) by (bit_vector)
        requires
            ty2 == lo2 + 256 * hi2,
    ;
    assert(first_below(img, lay, next, img.len() as nat / ps as nat) == Some(seq![next]));
    assert(chain_after(img, lay, chain) == Next::Chain(ups + seq![next]));
    let now = nums(d.cursor@);
    assert(now == ups + seq![next]);
    assert(now.len() == d.cursor.len());
    assert forall|i: int| 0 <= i < c.cursor.len() - 1 implies #[trigger] d.cursor@[i] == c.cursor@[i] by {
        assert(now[i] == chain[i]);
        assert(now[i] == d.cursor@[i] as int && chain[i] == c.cursor@[i] as int);
    }
    assert(now[now.len() - 1] == d.cursor@.last() as int);
}

/// With flag 64, the page of a leaf that was added holds zeros wherever it holds nothing of the
/// leaf, up to where its hash stands.
pub proof fn law_added_is_blank(
    s: RmdbWTxn,
    n: RmdbWTxn,
    key: Seq<u8>,
    value: Seq<u8>,
    r: Result<(), RmdbError>,
    i: int,
)
    requires
        s.inv(),
        n.added(s, key, value, r),
        r is Ok,
        s.rmdb.layout.flags.bits / 64 % 2 == 1,
        ({
            let ps = s.rmdb.layout.pagesize as int;
            let hashed = s.rmdb.layout.flags.bits % 2 == 1;
            let at = (key.len() as int + 13) / 4 * 4;
            let far = value.len() > ps || value.len() + (key.len() as int + 3) / 4 * 4 + (if hashed {
                72int
            } else {
                8int
            }) >= ps;
            let end = if !far {
                at + 2 + value.len()
            } else if hashed {
                at + 40
            } else {
                at + 8
            };
            6 <= i < 8 || 10 + key.len() <= i < at || end <= i < (if hashed {
                ps - 32
            } else {
                ps
            })
        }),
    ensures
        n.rmdb.wr.mmap@[n.marks()[key].page * s.rmdb.layout.pagesize + i] == 0,
{
    reveal(blank_around);
    law_added_bytes(s, n, key, value, r);
    lemma_basics(s);
    lemma_basics(n);
    let ps = s.ps();
    law_payload(ps, s.lay().flags);
    assert(n@.dom().contains(key));
    lemma_leaf_bytes(n.img(), s.lay(), n.rootpage as int, n.tree@, key);
    law_flag_bits(s.lay().flags);
    let p = n.marks()[key].page;
    law_pages(n.img(), ps, p, 0);
    let pg = page(n.img(), ps, p);
    let v = value.len() as int;
    assert(v > ps ==> (v + ps - 1) / ps >= 1) by (nonlinear_arith)
        requires
            ps >= 1,
            v >= 0,
    ;
    assert(crate::tree::data_ptr(key.len() as int) == (key.len() as int + 13) / 4 * 4);
    assert(pg[i] == 0);
    assert(0 <= p * ps) by (nonlinear_arith)
        requires
            p >= 0,
            ps >= 0,
    ;
    assert(pg[i] == n.img()[p * ps + i]);
}

/// The first step of a cursor goes to the first child of the root where that is a leaf, without
/// a look at how many children the root counts.
pub proof fn law_first_child_step(
    c: RmdbCursor<'_>,
    d: RmdbCursor<'_>,
    r: Result<(&[u8], Vec<&[u8]>), RmdbError>,
)
    requires
        c.db().layout.sane(),
        c.fresh(),
        d.stepped(c, r) || d.shown(c, r),
        c.db().rootpage >= 1,
        ({
            let img = c.db().wr.mmap@;
            let ps = c.db().layout.pagesize as int;
            let root = c.db().rootpage * ps;
            let kid = img[root + 4] + 256 * img[root + 5] + 65536 * img[root + 6] + 16777216
                * img[root + 7];
            &&& root + ps <= img.len()
            &&& img[root] / 4 % 2 == 1
            &&& kid * ps + ps <= img.len()
            &&& img[kid * ps] / 4 % 2 == 0
            &&& img[kid * ps] / 8 % 2 == 1
        }),
    ensures
        ({
            let img = c.db().wr.mmap@;
            let root = c.db().rootpage * c.db().layout.pagesize;
            &&& d.cursor.len() == 2
            &&& d.cursor@[0] == c.db().rootpage
            &&& d.cursor@[1] == img[root + 4] + 256 * img[root + 5] + 65536 * img[root + 6]
                + 16777216 * img[root + 7]
        }),
{
    let (img, lay) = (c.db().img(), c.db().layout);
    let ps = lay.ps();
    let root = c.db().rootpage as int;
    lemma_first_child(img, lay, root);
    law_pages(img, ps, root, 0);
    assert(0 <= root * ps) by (nonlinear_arith)
        requires
            root >= 0,
            ps >= 0,
    ;
    let pg = page(img, ps, root);
    assert(pg[4] == img[root * ps + 4] && pg[5] == img[root * ps + 5] && pg[6] == img[root * ps + 6]
        && pg[7] == img[root * ps + 7]);
    let kid = u32_at(pg, 4);
    law_pages(img, ps, kid, 0);
    assert(0 <= kid * ps && (kid + 1) * ps == kid * ps + ps) by (nonlinear_arith)
        requires
            kid >= 0,
            ps >= 0,
    ;
    let kp = page(img, ps, kid);
    assert(kp[0] == img[kid * ps]);
    let (lo, hi) = (kp[0], kp[1]);
    let ty = (lo + 256 * hi) as u16;
    assert((ty & 0x0008u16 == 0x0008u16 <==> lo / 8 % 2 == 1) && (ty & 0x0004u16 == 0x0004u16 <==> lo
        / 4 % 2 == 1)) by (bit_vector)
        requires
            ty == lo + 256 * hi,
    ;
    let fuel = img.len() as nat / ps as nat;
    assert(leftmost(img, lay, kid, (fuel - 1) as nat) == Some(seq![kid]));
    assert(leftmost(img, lay, root, fuel) == Some(seq![root] + seq![kid]));
    let now = nums(d.cursor@);
    assert(now == seq![root] + seq![kid]);
    assert(now.len() == d.cursor.len());
    assert(now[0] == d.cursor@[0] as int && now[1] == d.cursor@[1] as int);
}

/// A page that is given up is free at once where a transaction works on it, and else waits for
/// the commit, behind those that wait already.
pub proof fn law_gave_up(s: RmdbWTxn, n: RmdbWTxn, x: u32, y: u32)
    requires
        s.inv(),
        1 <= x < s.rmdb.wr.num_pages,
        n.gave_up(s, x),
    ensures
        ({
            let ps = s.rmdb.layout.pagesize as int;
            let working = s.rmdb.wr.mmap@[x * ps + 1] >= 128;
            &&& working ==> {
                &&& n.free(x as int)
                &&& n.deletepages@ == s.deletepages@
                &&& !n.dirtypages@.contains(x)
                &&& y != x ==> n.free(y as int) == s.free(y as int)
                &&& y != x ==> n.dirtypages@.contains(y) == s.dirtypages@.contains(y)
            }
            &&& !working ==> {
                &&& n.deletepages@ == s.deletepages@.push(x)
                &&& n.dirtypages@ == s.dirtypages@
                &&& n.free(y as int) == s.free(y as int)
            }
        }),
{
    lemma_basics(s);
    let ps = s.ps();
    let img = s.img();
    s.rmdb.wr.lemma_pages_in(ps, x as int);
    law_pages(img, ps, x as int, 0);
    assert(0 <= x * ps && (x + 1) * ps == x * ps + ps) by (nonlinear_arith)
        requires
            ps >= 0,
    ;
    let pg = page(img, ps, x as int);
    assert(pg[0] == img[x * ps] && pg[1] == img[x * ps + 1]);
    let (lo, hi) = (pg[0], pg[1]);
    let ty = (lo + 256 * hi) as u16;
    assert(ty & 0x8000u16 == 0x8000u16 <==> hi >= 128) by (bit_vector)
        requires
            ty == lo + 256 * hi,
    ;
    lemma_all_but(s.dirtypages@, x);
}

} // verus!
