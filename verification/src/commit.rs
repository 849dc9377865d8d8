//! The end of a write transaction: its changes are saved, or forgotten.
use crate::blocks::{among, in_free, lemma_total_bound};
use crate::bytes::{
    get_u16, get_u32, in_img, lemma_le16, lemma_le32, lemma_page_len, page, same_page, set_u16,
    set_u32, u16_at, u32_at,
};
use crate::contents::lemma_place;
use crate::db::{Rmdb, RmdbTxnState};
use crate::error::RmdbError;
use crate::freemap::{
    lemma_map_frame, map_at, map_bytes, map_page, map_pages, room_for_map, root_of, spelled,
};
use crate::layout::{
    Layout, PAGE_DIRTY, POS_PAGETYPE, RMDB_P_DBPAGES, RMDB_P_FREEPAGES, RMDB_P_FREESIZE,
    RMDB_P_ROOT,
};
use crate::path::good;
use crate::saved::{header, in_map, is_index, kept, page_type, saved, total_pages, Base};
use crate::store::RmdbWr;
use crate::tree::{
    data_ptr, entries, has_page, height, holds, leaf_page, lemma_index_in, lemma_page_root,
    node_page, plays, Role, Tree,
};
use crate::txn::lemma_leaf_mark;
use crate::wtxn::RmdbWTxn;
use vstd::prelude::*;

verus! {

/// Whether page `p` holds the same in both images, but for the mark of a dirty node, and
/// for its hash.
pub open spec fn alike(a: Seq<u8>, b: Seq<u8>, lay: Layout, p: int) -> bool {
    in_img(a, lay.ps(), p) ==> {
        &&& in_img(b, lay.ps(), p)
        &&& page(b, lay.ps(), p).subrange(2, lay.payload as int) == page(a, lay.ps(), p).subrange(
            2,
            lay.payload as int,
        )
        &&& page_type(b, lay, p) == page_type(a, lay, p) || (page_type(a, lay, p) == 0x8004
            && page_type(b, lay, p) == 0x0004)
    }
}

/// What stands in both of two pages that agree.
proof fn lemma_alike_bytes(a: Seq<u8>, b: Seq<u8>, lay: Layout, p: int)
    requires
        lay.sane(),
        alike(a, b, lay, p),
        in_img(a, lay.ps(), p),
    ensures
        ({
            let x = page(a, lay.ps(), p);
            let y = page(b, lay.ps(), p);
            &&& x.len() == lay.ps()
            &&& y.len() == lay.ps()
            &&& forall|i: int| 2 <= i < lay.payload ==> #[trigger] y[i] == x[i]
        }),
{
    let x = page(a, lay.ps(), p);
    let y = page(b, lay.ps(), p);
    lemma_page_len(a, lay.ps(), p);
    lemma_page_len(b, lay.ps(), p);
    assert forall|i: int| 2 <= i < lay.payload implies #[trigger] y[i] == x[i] by {
        assert(y.subrange(2, lay.payload as int)[i - 2] == x.subrange(2, lay.payload as int)[i - 2]);
    }
}

/// The page of a leaf still is one with the same contents.
proof fn lemma_alike_leaf(
    x: Seq<u8>,
    y: Seq<u8>,
    lay: Layout,
    key: Seq<u8>,
    val: Seq<u8>,
    first: int,
    count: int,
    right: bool,
)
    requires
        lay.sane(),
        leaf_page(x, lay, key, val, first, count, right),
        x.len() == lay.ps(),
        y.len() == lay.ps(),
        u16_at(y, 0) == u16_at(x, 0),
        forall|i: int| 2 <= i < lay.payload ==> #[trigger] y[i] == x[i],
    ensures
        leaf_page(y, lay, key, val, first, count, right),
{
    let dp = data_ptr(key.len() as int);
    assert(y[2] == x[2] && y[3] == x[3] && y[4] == x[4] && y[5] == x[5] && y[8] == x[8] && y[9]
        == x[9]);
    assert(y.subrange(10, 10 + key.len() as int) =~= x.subrange(10, 10 + key.len() as int));
    assert(y[dp] == x[dp] && y[dp + 1] == x[dp + 1]);
    if count == 0 {
        assert(y.subrange(dp + 2, dp + 2 + val.len()) =~= x.subrange(dp + 2, dp + 2 + val.len()));
    } else {
        assert(y[dp + 2] == x[dp + 2] && y[dp + 3] == x[dp + 3] && y[dp + 4] == x[dp + 4] && y[dp
            + 5] == x[dp + 5] && y[dp + 6] == x[dp + 6] && y[dp + 7] == x[dp + 7]);
        if lay.flags.integrity() {
            assert(y.subrange(dp + 8, dp + 40) =~= x.subrange(dp + 8, dp + 40));
        }
    }
}

/// The page of a node still is one with the same children.
proof fn lemma_alike_node(x: Seq<u8>, y: Seq<u8>, lay: Layout, top: bool, kids: Seq<Tree>)
    requires
        lay.sane(),
        node_page(x, lay, top, kids),
        x.len() == lay.ps(),
        y.len() == lay.ps(),
        u16_at(y, 0) == u16_at(x, 0) || (u16_at(x, 0) == 0x8004 && u16_at(y, 0) == 0x0004),
        forall|i: int| 2 <= i < lay.payload ==> #[trigger] y[i] == x[i],
    ensures
        node_page(y, lay, top, kids),
{
    assert(y[2] == x[2] && y[3] == x[3]);
    assert forall|i: int| #![trigger kids[i]] 0 <= i < kids.len() implies u32_at(
        y,
        crate::layout::topptr(i),
    ) == kids[i].pg() by {
        let at = crate::layout::topptr(i);
        assert(y[at] == x[at] && y[at + 1] == x[at + 1] && y[at + 2] == x[at + 2] && y[at + 3]
            == x[at + 3]);
    }
}

/// An image whose pages are alike holds the same tree.
proof fn lemma_alike_holds(
    a: Seq<u8>,
    b: Seq<u8>,
    lay: Layout,
    t: Tree,
    h: int,
    top: bool,
)
    requires
        lay.sane(),
        holds(a, lay, t, h, top),
        forall|p: int| #[trigger] is_index(t, p) ==> alike(a, b, lay, p),
        forall|p: int| #[trigger] plays(t, p, Role::Data) ==> same_page(a, b, lay.ps(), p),
    ensures
        holds(b, lay, t, h, top),
    decreases t,
{
    lemma_page_root(t);
    assert(is_index(t, t.pg()));
    lemma_alike_bytes(a, b, lay, t.pg());
    match t {
        Tree::Leaf { page: p, key, val, first, count, right } => {
            lemma_alike_leaf(
                page(a, lay.ps(), p),
                page(b, lay.ps(), p),
                lay,
                key,
                val,
                first,
                count,
                right,
            );
            if count > 0 {
                assert forall|r: int| first <= r < first + count implies #[trigger] same_page(
                    a,
                    b,
                    lay.ps(),
                    r,
                ) by {
                    assert(plays(t, r, Role::Data));
                }
                assert(same_page(a, b, lay.ps(), first + count - 1));
                crate::bytes::lemma_run_same(a, b, lay.ps(), first, count, val.len() as int);
            }
        },
        Tree::Node { page: p, kids } => {
            lemma_alike_node(page(a, lay.ps(), p), page(b, lay.ps(), p), lay, top, kids);
            assert forall|i: int| 0 <= i < kids.len() implies holds(
                b,
                lay,
                #[trigger] kids[i],
                h - 1,
                false,
            ) by {
                assert forall|r: int| #[trigger] is_index(kids[i], r) implies alike(a, b, lay, r) by {
                    assert(is_index(t, r));
                }
                assert forall|r: int| #[trigger] plays(kids[i], r, Role::Data) implies same_page(
                    a,
                    b,
                    lay.ps(),
                    r,
                ) by {
                    assert(plays(t, r, Role::Data));
                }
                lemma_alike_holds(a, b, lay, kids[i], h - 1, false);
            }
        },
    }
}

/// Whether page `p` of `b` is that of `a` made final: not marked as dirty, and with its
/// hash.
pub open spec fn finished(a: Seq<u8>, b: Seq<u8>, lay: Layout, p: int) -> bool {
    &&& in_img(b, lay.ps(), p)
    &&& lay.sealed(b, p)
    &&& page(b, lay.ps(), p).subrange(2, lay.payload as int) == page(a, lay.ps(), p).subrange(
        2,
        lay.payload as int,
    )
    &&& page_type(b, lay, p) == page_type(a, lay, p) % 0x8000
}

/// Takes the mark of a dirty page away, and puts the hash in.
fn finalize_page(img: &mut Vec<u8>, lay: Layout, p: u32)
    requires
        lay.sane(),
        in_img(old(img)@, lay.ps(), p as int),
        p != 0,
    ensures
        final(img).len() == old(img).len(),
        finished(old(img)@, final(img)@, lay, p as int),
        forall|q: int| q != p ==> #[trigger] same_page(old(img)@, final(img)@, lay.ps(), q),
        forall|q: int|
            in_img(old(img)@, lay.ps(), q) == #[trigger] in_img(final(img)@, lay.ps(), q),
{
    let ps: usize = lay.pagesize;
    let ghost i0 = img@;
    let ghost n = p as int;
    let ptype: u16 = get_u16(img.as_slice(), ps, p, POS_PAGETYPE);
    proof {
        lemma_page_len(i0, lay.ps(), n);
        assert(ptype & 0x8000u16 == 0 ==> ptype < 0x8000) by (bit_vector);
        assert(ptype & 0x8000u16 != 0 ==> ptype >= 0x8000 && ptype & !0x8000u16 == ptype - 0x8000)
            by (bit_vector);
    }
    if ptype & PAGE_DIRTY != 0 {
        set_u16(img, ps, p, POS_PAGETYPE, ptype & !PAGE_DIRTY);
    }
    let ghost i1 = img@;
    proof {
        lemma_le16(page(i0, lay.ps(), n), 0, ptype & !0x8000u16);
        lemma_page_len(i1, lay.ps(), n);
        assert(page(i1, lay.ps(), n).subrange(2, lay.payload as int) =~= page(
            i0,
            lay.ps(),
            n,
        ).subrange(2, lay.payload as int));
    }
    lay.integrity_protect(img, p);
    proof {
        let i2 = img@;
        let x = page(i1, lay.ps(), n);
        let y = page(i2, lay.ps(), n);
        assert forall|i: int| 0 <= i < lay.payload implies #[trigger] y[i] == x[i] by {
            assert(y.subrange(0, lay.payload as int)[i] == x.subrange(0, lay.payload as int)[i]);
        }
        assert(y[0] == x[0] && y[1] == x[1]);
        assert(y.subrange(2, lay.payload as int) =~= x.subrange(2, lay.payload as int));
        assert forall|q: int| q != p implies #[trigger] same_page(i0, i2, lay.ps(), q) by {
            assert(same_page(i0, i1, lay.ps(), q));
            assert(same_page(i1, i2, lay.ps(), q));
        }
        assert forall|q: int| in_img(i0, lay.ps(), q) == #[trigger] in_img(i2, lay.ps(), q) by {
            assert(in_img(i0, lay.ps(), q) == in_img(i1, lay.ps(), q));
        }
    }
}

/// Makes all of the pages final.
fn finalize_pages(img: &mut Vec<u8>, lay: Layout, pages: &Vec<u32>)
    requires
        lay.sane(),
        forall|i: int|
            0 <= i < pages.len() ==> 1 <= #[trigger] pages[i] && in_img(
                old(img)@,
                lay.ps(),
                pages[i] as int,
            ),
    ensures
        final(img).len() == old(img).len(),
        forall|p: int| #[trigger]
            among(pages@, p) ==> finished(old(img)@, final(img)@, lay, p),
        forall|p: int|
            #![trigger same_page(old(img)@, final(img)@, lay.ps(), p)]
            !among(pages@, p) ==> same_page(old(img)@, final(img)@, lay.ps(), p),
        forall|q: int|
            in_img(old(img)@, lay.ps(), q) == #[trigger] in_img(final(img)@, lay.ps(), q),
{
    let ghost i0 = img@;
    let mut k: usize = 0;
    assert(pages@.take(0) =~= Seq::empty());
    while k < pages.len()
        invariant
            lay.sane(),
            k <= pages.len(),
            i0.len() == img.len(),
            forall|i: int|
                0 <= i < pages.len() ==> 1 <= #[trigger] pages[i] && in_img(
                    i0,
                    lay.ps(),
                    pages[i] as int,
                ),
            forall|p: int| #[trigger]
                among(pages@.take(k as int), p) ==> finished(i0, img@, lay, p),
            forall|p: int|
                #![trigger same_page(i0, img@, lay.ps(), p)]
                !among(pages@.take(k as int), p) ==> same_page(i0, img@, lay.ps(), p),
            forall|q: int| in_img(i0, lay.ps(), q) == #[trigger] in_img(img@, lay.ps(), q),
        decreases pages.len() - k,
    {
        let ghost i1 = img@;
        let ghost done = pages@.take(k as int);
        let page: u32 = pages[k];
        assert(in_img(i0, lay.ps(), page as int));
        finalize_page(img, lay, page);
        proof {
            assert(pages@.take(k + 1) =~= done.push(page));
            crate::blocks::lemma_among_push(done, page);
            let i2 = img@;
            assert forall|p: int| #[trigger] among(pages@.take(k + 1), p) implies finished(
                i0,
                i2,
                lay,
                p,
            ) by {
                assert(among(done.push(page), p) <==> among(done, p) || p == page);
                if p == page {
                    if among(done, p) {
                        assert(finished(i0, i1, lay, p));
                    } else {
                        assert(same_page(i0, i1, lay.ps(), p));
                    }
                } else {
                    assert(finished(i0, i1, lay, p));
                    assert(same_page(i1, i2, lay.ps(), p));
                }
            }
            assert forall|p: int|
                #![trigger same_page(i0, i2, lay.ps(), p)]
                !among(pages@.take(k + 1), p) implies same_page(i0, i2, lay.ps(), p) by {
                assert(among(done.push(page), p) <==> among(done, p) || p == page);
                assert(same_page(i0, i1, lay.ps(), p));
                assert(same_page(i1, i2, lay.ps(), p));
            }
            assert forall|q: int| in_img(i0, lay.ps(), q) == #[trigger] in_img(i2, lay.ps(), q) by {
                assert(in_img(i0, lay.ps(), q) == in_img(i1, lay.ps(), q));
            }
        }
        k = k + 1;
    }
    assert(pages@.take(k as int) =~= pages@);
}

/// Names the number of pages, the root and the map of free pages in page 0, and puts its
/// hash in.
pub(crate) fn set_main(img: &mut Vec<u8>, lay: Layout, np: u32, root: u32, fp: u32, fs: u32)
    requires
        lay.sane(),
        in_img(old(img)@, lay.ps(), 0),
    ensures
        final(img).len() == old(img).len(),
        total_pages(final(img)@, lay) == np,
        root_of(final(img)@, lay) == root,
        map_page(final(img)@, lay) == fp,
        map_pages(final(img)@, lay) == fs,
        lay.sealed(final(img)@, 0),
        forall|i: int|
            0 <= i < 16 ==> #[trigger] page(final(img)@, lay.ps(), 0)[i] == page(
                old(img)@,
                lay.ps(),
                0,
            )[i],
        forall|q: int| q != 0 ==> #[trigger] same_page(old(img)@, final(img)@, lay.ps(), q),
        forall|q: int|
            in_img(old(img)@, lay.ps(), q) == #[trigger] in_img(final(img)@, lay.ps(), q),
{
    let ps: usize = lay.pagesize;
    let ghost i0 = img@;
    let ghost p0 = page(i0, lay.ps(), 0);
    proof {
        lemma_page_len(i0, lay.ps(), 0);
    }
    set_u32(img, ps, 0, RMDB_P_DBPAGES, np);
    let ghost iz = img@;
    let ghost pz = page(iz, lay.ps(), 0);
    set_u32(img, ps, 0, RMDB_P_ROOT, root);
    let ghost i1 = img@;
    let ghost p1 = page(i1, lay.ps(), 0);
    set_u32(img, ps, 0, RMDB_P_FREEPAGES, fp);
    let ghost i2 = img@;
    let ghost p2 = page(i2, lay.ps(), 0);
    set_u32(img, ps, 0, RMDB_P_FREESIZE, fs);
    let ghost i3 = img@;
    let ghost p3 = page(i3, lay.ps(), 0);
    lay.integrity_protect(img, 0);
    proof {
        let i4 = img@;
        let p4 = page(i4, lay.ps(), 0);
        lemma_le32(p0, 16, np);
        lemma_le32(pz, 20, root);
        lemma_le32(p1, 24, fp);
        lemma_le32(p2, 28, fs);
        assert forall|i: int| 0 <= i < lay.payload implies #[trigger] p4[i] == p3[i] by {
            assert(p4.subrange(0, lay.payload as int)[i] == p3.subrange(0, lay.payload as int)[i]);
        }
        assert(p4[16] == pz[16] && p4[17] == pz[17] && p4[18] == pz[18] && p4[19] == pz[19]);
        assert(p4[20] == p1[20] && p4[21] == p1[21] && p4[22] == p1[22] && p4[23] == p1[23]);
        assert(p4[24] == p2[24] && p4[25] == p2[25] && p4[26] == p2[26] && p4[27] == p2[27]);
        assert(p4[28] == p3[28] && p4[29] == p3[29] && p4[30] == p3[30] && p4[31] == p3[31]);
        assert forall|q: int| q != 0 implies #[trigger] same_page(i0, i4, lay.ps(), q) by {
            assert(same_page(i0, iz, lay.ps(), q));
            assert(same_page(iz, i1, lay.ps(), q));
            assert(same_page(i1, i2, lay.ps(), q));
            assert(same_page(i2, i3, lay.ps(), q));
            assert(same_page(i3, i4, lay.ps(), q));
        }
        assert forall|q: int| in_img(i0, lay.ps(), q) == #[trigger] in_img(i4, lay.ps(), q) by {
            assert(in_img(i3, lay.ps(), q) == in_img(i4, lay.ps(), q));
            assert(in_img(i2, lay.ps(), q) == in_img(i3, lay.ps(), q));
            assert(in_img(i1, lay.ps(), q) == in_img(i2, lay.ps(), q));
            assert(in_img(iz, lay.ps(), q) == in_img(i1, lay.ps(), q));
        }
    }
}

/// The transaction's tree in pages that were made final.
proof fn lemma_finished_tree(s: RmdbWTxn, b: Seq<u8>)
    requires
        s.inv(),
        forall|p: int| #[trigger] s.dirty(p) ==> finished(s.img(), b, s.lay(), p),
        forall|p: int|
            #![trigger same_page(s.img(), b, s.ps(), p)]
            !s.dirty(p) ==> same_page(s.img(), b, s.ps(), p),
    ensures
        good(b, s.lay(), s.rootpage as int, s.tree@),
        forall|p: int| #[trigger]
            is_index(s.tree@, p) ==> page_type(b, s.lay(), p) != 0x8004 && (s.kept(p)
                || s.lay().sealed(b, p)),
        s.lay().sealed(b, s.rootpage as int),
        forall|p: int| #[trigger] s.kept(p) ==> same_page(s.img(), b, s.ps(), p),
{
    reveal(RmdbWTxn::inv);
    let t = s.tree@;
    let a = s.img();
    let lay = s.lay();
    assert forall|p: int| #[trigger] is_index(t, p) implies alike(a, b, lay, p) && page_type(b, lay, p)
        != 0x8004 && (s.kept(p) || lay.sealed(b, p)) by {
        lemma_index_in(a, lay, t, height(t), true, p);
        lemma_index_type(a, lay, t, height(t), true, p);
        if s.dirty(p) {
            assert(finished(a, b, lay, p));
        } else {
            assert(same_page(a, b, s.ps(), p));
            assert(is_index(s.rmdb.tree@, p));
            assert(s.kept(p));
        }
    }
    assert forall|p: int| #[trigger] plays(t, p, Role::Data) implies same_page(a, b, lay.ps(), p) by {
        if s.dirty(p) {
        }
        assert(same_page(a, b, s.ps(), p));
    }
    lemma_alike_holds(a, b, lay, t, height(t), true);
    assert(lay.sealed(b, s.rootpage as int)) by {
        lemma_page_root(t);
        assert(is_index(t, s.rootpage as int));
        if !s.dirty(s.rootpage as int) {
            assert(same_page(a, b, s.ps(), s.rootpage as int));
        }
    }
    assert forall|p: int| #[trigger] s.kept(p) implies same_page(s.img(), b, s.ps(), p) by {
        if s.dirty(p) {
        }
    }
}

/// The types that nodes and leaves have.
proof fn lemma_index_type(
    img: Seq<u8>,
    lay: Layout,
    t: Tree,
    h: int,
    top: bool,
    p: int,
)
    requires
        holds(img, lay, t, h, top),
        is_index(t, p),
    ensures
        ({
            let ty = page_type(img, lay, p);
            ty == 0x4004 || ty == 0x0004 || ty == 0x8004 || ty == 0x0008
        }),
    decreases t,
{
    match t {
        Tree::Leaf { .. } => {},
        Tree::Node { page, kids } => {
            if p != page {
                let k = if plays(t, p, Role::Node) {
                    Role::Node
                } else {
                    Role::Leaf
                };
                let i = choose|i: int| 0 <= i < kids.len() && plays(#[trigger] kids[i], p, k);
                assert(is_index(kids[i], p));
                lemma_index_type(img, lay, kids[i], h - 1, false, p);
            }
        },
    }
}

/// A tree whose pages are not free and not the map's stays where the map is written anew
/// and named in page 0.
pub(crate) proof fn lemma_saved_new(
    w2: RmdbWr,
    w3: RmdbWr,
    w4: RmdbWr,
    lay: Layout,
    t: Tree,
    old_fp: int,
    old_fs: int,
    root: u32,
    fp: u32,
    fs: u32,
)
    requires
        lay.ok(),
        w2.ok(lay.ps()),
        w3.ok(lay.ps()),
        good(w2.mmap@, lay, root as int, t),
        forall|p: int| #[trigger]
            has_page(t, p) ==> 1 <= p < w2.num_pages && !in_free(w2.ls(), p) && !(old_fp <= p < old_fp
                + old_fs),
        forall|p: int| #[trigger] is_index(t, p) ==> page_type(w2.mmap@, lay, p) != 0x8004,
        lay.sealed(w2.mmap@, root as int),
        w2.num_pages <= w3.num_pages,
        fs >= 1,
        w3.taken(fp as int, fs as int),
        map_at(w3.mmap@, lay, fp as int, fs as int, w3.ls()),
        forall|p: int|
            #![trigger in_free(w3.ls(), p)]
            #![trigger in_free(w2.ls(), p)]
            0 <= p < w2.num_pages && !in_free(w2.ls(), p) && !(old_fp <= p < old_fp + old_fs)
                ==> !in_free(w3.ls(), p) && !(fp <= p < fp + fs) && same_page(
                w2.mmap@,
                w3.mmap@,
                lay.ps(),
                p,
            ),
        w4.num_pages == w3.num_pages,
        w4.freepages == w3.freepages,
        w4.mmap.len() == w3.mmap.len(),
        header(w4.mmap@, lay),
        total_pages(w4.mmap@, lay) == w4.num_pages,
        root_of(w4.mmap@, lay) == root,
        map_page(w4.mmap@, lay) == fp,
        map_pages(w4.mmap@, lay) == fs,
        lay.sealed(w4.mmap@, 0),
        forall|q: int| q != 0 ==> #[trigger] same_page(w3.mmap@, w4.mmap@, lay.ps(), q),
        forall|q: int|
            in_img(w3.mmap@, lay.ps(), q) == #[trigger] in_img(w4.mmap@, lay.ps(), q),
    ensures
        w4.ok(lay.ps()),
        saved(
            w4.mmap@,
            lay,
            root as int,
            t,
            (Base { ls: w4.ls(), fp: fp as int, fs: fs as int }),
        ),
        forall|p: int| #[trigger] has_page(t, p) ==> same_page(w2.mmap@, w4.mmap@, lay.ps(), p),
{
    let b = Base { ls: w4.ls(), fp: fp as int, fs: fs as int };
    let a = w2.mmap@;
    let c = w4.mmap@;
    w4.lemma_pages_in(lay.ps(), 0);
    assert forall|p: int| #[trigger] has_page(t, p) implies same_page(a, c, lay.ps(), p)
        && !in_free(w4.ls(), p) && !in_map(b, p) by {
        assert(!in_free(w2.ls(), p));
        assert(same_page(w2.mmap@, w3.mmap@, lay.ps(), p));
        assert(same_page(w3.mmap@, w4.mmap@, lay.ps(), p));
        assert(!in_free(w3.ls(), p));
    }
    crate::tree::lemma_holds_frame(a, c, lay, t, height(t), true);
    assert(lay.sealed(c, root as int)) by {
        lemma_page_root(t);
        assert(same_page(a, c, lay.ps(), root as int));
    }
    assert forall|p: int| fp <= p < fp + fs implies #[trigger] same_page(
        w3.mmap@,
        c,
        lay.ps(),
        p,
    ) by {}
    lemma_map_frame(w3.mmap@, c, lay, fp as int, fs as int, w3.ls());
    assert forall|p: int| #[trigger] kept(t, b, p) implies !in_free(b.ls, p) by {
        if in_map(b, p) {
            assert(!in_free(w3.ls(), p));
        } else if has_page(t, p) {
        } else {
            crate::store::lemma_lists_wider(w4.ls(), w4.num_pages as int, w4.num_pages as int);
        }
    }
    assert forall|p: int| #[trigger] is_index(t, p) implies page_type(c, lay, p) != 0x8004 by {
        assert(has_page(t, p));
        lemma_index_in(a, lay, t, height(t), true, p);
        assert(same_page(a, c, lay.ps(), p));
    }
}

impl RmdbWTxn {
    /// Whether `self` is `s` with its changes saved.
    pub open spec fn committed(self, s: RmdbWTxn) -> bool {
        &&& self.status == RmdbTxnState::Committed
        &&& self.rmdb.wf()
        &&& self.rmdb@ == s@
        &&& self.rmdb.layout == s.rmdb.layout
        &&& self.rmdb.rootpage == s.rootpage
        &&& self.rmdb.tree == s.tree
        &&& forall|key: Seq<u8>|
            s@.dom().contains(key) ==> #[trigger] self.rmdb.intact(key)
                == s.intact(key)
        &&& s.whole() ==> self.rmdb.readable()
        &&& self.np() >= s.np()
        &&& total_pages(self.img(), self.lay()) == self.np()
        &&& self.rmdb.base().fp + self.rmdb.base().fs <= s.base@.fp
            || s.base@.fp + s.base@.fs <= self.rmdb.base().fp
        &&& forall|p: int| #[trigger]
            self.free(p) <==> (s.free(p) || s.deleted(p) || in_map(
                s.base@,
                p,
            ) || s.np() <= p < self.np()) && !in_map(self.rmdb.base(), p)
        &&& forall|p: int| #[trigger]
            s.dirty(p) && !s.deleted(p) ==> finished(
                s.img(),
                self.img(),
                s.lay(),
                p,
            )
    }

    /// Saves the changes: the pages that were given up are free, the pages that were made
    /// are final, and page 0 names the new root and the new map of free pages.
    pub fn commit(&mut self) -> (r: Result<(), RmdbError>)
        requires
            old(self).inv(),
            room_for_map(old(self).np(), old(self).ps()),
        ensures
            r is Ok,
            final(self).committed(*old(self)),
            final(self).rmdb@ == old(self)@,
    {
        let ghost s0 = *self;
        let lay: Layout = self.rmdb.layout;
        proof {
            reveal(RmdbWTxn::inv);
            assert forall|i: int| 0 <= i < self.deletepages.len() implies 1 <= #[trigger] self.deletepages[i]
                < s0.np() && !in_free(s0.rmdb.wr.ls(), self.deletepages[i] as int) by {
                assert(s0.deleted(self.deletepages[i] as int));
                assert(s0.loose(self.deletepages[i] as int));
            }
        }
        self.rmdb.wr.freepages.put_free_pages(&self.deletepages, Ghost(s0.np()))?;
        let ghost w1 = self.rmdb.wr;
        proof {
            assert(w1.ok(lay.ps()));
            assert forall|i: int| 0 <= i < self.dirtypages.len() implies 1 <= #[trigger] self.dirtypages[i]
                && in_img(w1.mmap@, lay.ps(), self.dirtypages[i] as int) by {
                assert(s0.dirty(self.dirtypages[i] as int));
                w1.lemma_pages_in(lay.ps(), self.dirtypages[i] as int);
            }
        }
        finalize_pages(&mut self.rmdb.wr.mmap, lay, &self.dirtypages);
        let ghost w2 = self.rmdb.wr;
        proof {
            assert forall|p: int| #[trigger] s0.dirty(p) implies finished(
                s0.img(),
                w2.mmap@,
                s0.lay(),
                p,
            ) by {
                assert(among(s0.dirtypages@, p));
            }
            lemma_finished_tree(s0, w2.mmap@);
            assert(s0.kept(0));
            assert(same_page(s0.img(), w2.mmap@, s0.ps(), 0));
            w2.lemma_pages_in(lay.ps(), 0);
            lemma_still_taken(s0, w2);
        }
        let fp: u32 = get_u32(self.rmdb.wr.mmap.as_slice(), lay.pagesize, 0, RMDB_P_FREEPAGES);
        let fs: u32 = get_u32(self.rmdb.wr.mmap.as_slice(), lay.pagesize, 0, RMDB_P_FREESIZE);
        let (newfp, newfs) = self.rmdb.wr.set_free_pages_map(lay, fp, fs);
        let ghost w3 = self.rmdb.wr;
        proof {
            w3.lemma_pages_in(lay.ps(), 0);
        }
        let np: u32 = self.rmdb.wr.num_pages;
        set_main(&mut self.rmdb.wr.mmap, lay, np, self.rootpage, newfp, newfs);
        let ghost w4 = self.rmdb.wr;
        proof {
            assert(!in_free(w2.ls(), 0)) by {
                crate::store::lemma_lists_wider(w2.ls(), s0.np(), s0.np());
            }
            assert(same_page(w2.mmap@, w3.mmap@, lay.ps(), 0));
            lemma_header_kept(w3.mmap@, w4.mmap@, lay);
            lemma_saved_new(
                w2,
                w3,
                w4,
                lay,
                s0.tree@,
                fp as int,
                fs as int,
                s0.rootpage,
                newfp,
                newfs,
            );
        }
        self.rmdb.rootpage = self.rootpage;
        self.rmdb.tree = Ghost(s0.tree@);
        self.status = RmdbTxnState::Committed;
        proof {
            lemma_hashes(s0, w2.mmap@, self.rmdb);
            assert forall|p: int| #[trigger] self.free(p) <==> (s0.free(p) || s0.deleted(p) || in_map(
                s0.base@,
                p,
            ) || s0.np() <= p < self.np()) && !in_map(self.rmdb.base(), p) by {
                assert(in_free(w2.ls(), p) <==> s0.free(p) || s0.deleted(p)) by {
                    assert(in_free(s0.rmdb.wr.freepages.ls(), p) == s0.free(p));
                }
                assert(in_free(w3.ls(), p) <==> (in_free(w2.ls(), p) || w2.num_pages <= p
                    < w3.num_pages || fp <= p < fp + fs) && !(newfp <= p < newfp + newfs));
            }
            assert forall|p: int| #[trigger] s0.dirty(p) && !s0.deleted(p) implies finished(
                s0.img(),
                self.img(),
                lay,
                p,
            ) by {
                assert(finished(s0.img(), w2.mmap@, lay, p));
                assert(!s0.kept(p));
                assert(w3.moved(w2, fp as int, fs as int, newfp as int, newfs as int));
                assert(in_free(w2.ls(), p) <==> s0.free(p) || s0.deleted(p)) by {
                    assert(in_free(s0.rmdb.wr.freepages.ls(), p) == s0.free(p));
                }
                assert(!(newfp <= p < newfp + newfs));
                assert(same_page(w2.mmap@, w3.mmap@, lay.ps(), p));
                assert(same_page(w3.mmap@, w4.mmap@, lay.ps(), p));
            }
        }
        Ok(())
    }
}

/// The hashes of a tree that was saved: those of the pages that were saved before are as
/// they were, all others are right.
proof fn lemma_hashes(s: RmdbWTxn, b: Seq<u8>, db: Rmdb)
    requires
        s.inv(),
        db.layout == s.lay(),
        db.tree == s.tree,
        db.rootpage == s.rootpage,
        db.wf(),
        good(b, s.lay(), s.rootpage as int, s.tree@),
        forall|p: int| #[trigger] is_index(s.tree@, p) ==> s.kept(p) || s.lay().sealed(b, p),
        forall|p: int| #[trigger] s.kept(p) ==> same_page(s.img(), b, s.ps(), p),
        forall|p: int| #[trigger] has_page(s.tree@, p) ==> same_page(b, db.img(), s.ps(), p),
    ensures
        forall|key: Seq<u8>|
            s@.dom().contains(key) ==> #[trigger] db.intact(key) == s.intact(key),
        s.whole() ==> db.readable(),
{
    reveal(RmdbWTxn::inv);
    let t = s.tree@;
    let lay = s.lay();
    assert forall|p: int| #[trigger] is_index(t, p) implies lay.sealed(db.img(), p) == (s.kept(p)
        ==> lay.sealed(s.orig@, p)) by {
        lemma_index_in(s.img(), lay, t, height(t), true, p);
        lemma_index_in(b, lay, t, height(t), true, p);
        assert(has_page(t, p));
        assert(same_page(b, db.img(), s.ps(), p));
        if s.kept(p) {
            assert(same_page(s.img(), b, s.ps(), p));
        }
    }
    assert forall|key: Seq<u8>| s@.dom().contains(key) implies #[trigger] db.intact(key) == s.intact(
        key,
    ) by {
        lemma_leaf_mark(s.img(), lay, s.rootpage as int, t, key);
    }
    if s.whole() {
        assert forall|p: int| #[trigger] is_index(t, p) implies lay.sealed(db.img(), p) by {
            if s.kept(p) {
                assert(!s.dirty(p));
                assert(is_index(s.rmdb.tree@, p));
            }
        }
        assert forall|i: int| 0 <= i < entries(t).len() implies (#[trigger] entries(t)[i]).2.right by {
            lemma_place(entries(t), i);
            assert(s@.dom().contains(entries(t)[i].0));
        }
    }
}

/// Page 0 still names the layout.
pub(crate) proof fn lemma_header_kept(a: Seq<u8>, b: Seq<u8>, lay: Layout)
    requires
        header(a, lay),
        forall|i: int|
            0 <= i < 16 ==> #[trigger] page(b, lay.ps(), 0)[i] == page(a, lay.ps(), 0)[i],
    ensures
        header(b, lay),
{
    let x = page(a, lay.ps(), 0);
    let y = page(b, lay.ps(), 0);
    assert(y[0] == x[0] && y[1] == x[1] && y[2] == x[2] && y[3] == x[3]);
    assert(y[4] == x[4] && y[5] == x[5] && y[6] == x[6] && y[7] == x[7]);
    assert(y[8] == x[8] && y[9] == x[9] && y[10] == x[10] && y[11] == x[11]);
    assert(y[12] == x[12] && y[13] == x[13] && y[14] == x[14] && y[15] == x[15]);
}

/// Once the pages that were given up are free, the pages of the tree and of the map are
/// not.
proof fn lemma_still_taken(s: RmdbWTxn, w: RmdbWr)
    requires
        s.inv(),
        w.num_pages == s.np(),
        forall|p: int|
            #![trigger in_free(w.ls(), p)]
            in_free(w.ls(), p) ==> s.free(p) || s.deleted(p),
    ensures
        w.taken(s.base@.fp, s.base@.fs),
        forall|p: int| #[trigger]
            has_page(s.tree@, p) ==> 1 <= p < w.num_pages && !in_free(w.ls(), p) && !in_map(
                s.base@,
                p,
            ),
{
    reveal(RmdbWTxn::inv);
    let b = s.base@;
    assert forall|p: int| b.fp <= p < b.fp + b.fs implies !#[trigger] in_free(w.ls(), p) by {
        assert(s.kept(p));
        if s.deleted(p) {
            assert(!in_map(b, p));
        }
    }
    assert forall|p: int| #[trigger] has_page(s.tree@, p) implies 1 <= p < w.num_pages && !in_free(
        w.ls(),
        p,
    ) && !in_map(s.base@, p) by {
        assert(s.used(p));
        if s.deleted(p) {
            assert(s.loose(p));
        }
    }
}

impl RmdbWTxn {
    /// What forgetting the changes comes to.
    pub open spec fn scrubbed(self, s: RmdbWTxn, r: Result<(), RmdbError>) -> bool {
        match r {
            Ok(_) => {
                &&& s.status == RmdbTxnState::Open
                &&& self.status == RmdbTxnState::Scrubbed
                &&& self.rmdb.wf()
                &&& self.rmdb@ == s.rmdb@
                &&& self.rmdb.layout == s.rmdb.layout
                &&& self.rmdb.rootpage == s.rmdb.rootpage
                &&& self.rmdb.tree == s.rmdb.tree
                &&& self.rmdb.base() == s.base@
                &&& self.np() == s.np()
                &&& self.img() == s.img()
            },
            Err(e) => {
                &&& s.status != RmdbTxnState::Open
                &&& self == s
                &&& e is InvalidTransaction
            },
        }
    }

    /// Forgets the changes: the free pages are those of the map again.
    pub fn scrub(&mut self) -> (r: Result<(), RmdbError>)
        requires
            old(self).status == RmdbTxnState::Open ==> old(self).inv(),
        ensures
            final(self).scrubbed(*old(self), r),
            final(self).rmdb@ == old(self).rmdb@,
    {
        match self.status {
            RmdbTxnState::Open => {
                let ghost s = *self;
                let lay: Layout = self.rmdb.layout;
                proof {
                    reveal(RmdbWTxn::inv);
                    lemma_total_bound(s.base@.ls, total_pages(s.img(), s.lay()));
                    crate::store::lemma_lists_wider(s.base@.ls, total_pages(s.img(), s.lay()), s.np());
                    assert(spelled(map_bytes(s.img(), s.lay(), s.base@.fp), s.base@.ls));
                }
                self.status = RmdbTxnState::Scrubbed;
                match self.rmdb.wr.get_free_pages_map(lay) {
                    Ok(_) => Ok(()),
                    Err(e) => {
                        assert(false);
                        Err(e)
                    },
                }
            },
            _ => Err(RmdbError::InvalidTransaction),
        }
    }

    /// Whether `r` is the database when the transaction has ended.
    pub open spec fn closes_as(self, r: Rmdb) -> bool {
        &&& r.wf()
        &&& r@ == self.rmdb@
        &&& r.layout == self.rmdb.layout
        &&& self.status != RmdbTxnState::Open ==> r == self.rmdb
        &&& self.status == RmdbTxnState::Open ==> {
            &&& r.img() == self.img()
            &&& r.np() == self.np()
            &&& r.rootpage == self.rmdb.rootpage
            &&& r.tree == self.rmdb.tree
            &&& r.base() == self.base@
        }
    }

    /// Ends the transaction and gives the database back. Changes that were not saved are
    /// forgotten.
    pub fn close(self) -> (r: Rmdb)
        requires
            self.status == RmdbTxnState::Open ==> self.inv(),
            self.status != RmdbTxnState::Open ==> self.rmdb.wf(),
        ensures
            self.closes_as(r),
            r@ == self.rmdb@,
    {
        let mut txn = self;
        match txn.status {
            RmdbTxnState::Open => {
                match txn.scrub() {
                    Ok(_) => {},
                    Err(_) => {
                        assert(false);
                    },
                }
            },
            _ => {},
        }
        txn.rmdb
    }
}

} // verus!
