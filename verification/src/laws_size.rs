//! What holds of sizes: of pages, of the file, and of what finds room in them, in numbers.
use crate::blocks::is_order;
use crate::bytes::law_pages;
use crate::db::{created, Rmdb};
use crate::error::RmdbError;
use crate::flags::{lemma_all_flags, RmdbFlags};
use crate::freemap::{map_span, room_for_map};
use crate::layout::Layout;
use crate::leaf::{far_pages, leaf_fits, too_long};
use crate::options::{payload_of, RmdbOptions};
use crate::path::reaches;
use crate::store::{first_order, RmdbWr};
use crate::tree::height;
use crate::wtxn::{lemma_basics, RmdbWTxn};
use vstd::arithmetic::power2::pow2;
use vstd::prelude::*;

verus! {

/// A request for pages of a size gets that size, or 128 bytes where it is less. The first
/// size is raised to 64 such pages, and never lowered; nothing else changes.
pub proof fn law_page_size(o: RmdbOptions, n: RmdbOptions, s: usize)
    requires
        n.paged(o, s),
        s * 64 <= usize::MAX,
    ensures
        s >= 128 ==> n.pagesize == s,
        s < 128 ==> n.pagesize == 128,
        n.init_size >= 64 * n.pagesize,
        n.init_size >= o.init_size,
        n.init_size == 64 * n.pagesize || n.init_size == o.init_size,
        n.flags.bits == o.flags.bits,
        n.readonly == o.readonly,
{
}

/// What of a page is left for its contents: all but 32 bytes where flag 1 is set.
pub proof fn law_payload(pagesize: int, flags: RmdbFlags)
    ensures
        flags.integrity() <==> flags.bits % 2 == 1,
        flags.bits % 2 == 1 ==> payload_of(pagesize, flags) == pagesize - 32,
        flags.bits % 2 == 0 ==> payload_of(pagesize, flags) == pagesize,
{
    let b = flags.bits;
    assert(b & 1u32 == 1u32 <==> b % 2 == 1) by (bit_vector);
}

/// Options are good for a database where a page has between 128 and 262144 bytes, no bit is
/// set but the seven flags, there is more than one page, and the pages can be counted.
pub proof fn law_usable(o: RmdbOptions)
    ensures
        o.usable() <==> {
            let n = (o.init_size + o.pagesize - 1) / o.pagesize as int;
            &&& 128 <= o.pagesize <= 262144
            &&& o.flags.bits < 128
            &&& o.init_size > o.pagesize
            &&& 8 * n + 327752 <= u32::MAX
            &&& (2 * n + 119) * o.pagesize <= usize::MAX
        },
{
    lemma_all_flags(o.flags.bits);
    let (n, k) = (o.init_size as int, o.pagesize as int);
    if k >= 1 {
        let q = (n + k - 1) / k;
        assert(q >= 2 <==> n > k) by (nonlinear_arith)
            requires
                q == (n + k - 1) / k,
                k >= 1,
                n >= 0,
        ;
    }
}

/// A new database has the pages and the flags that were asked for, and nothing in it. Its file
/// is no smaller than was asked for and ends with a page. Where a page has 1024 bytes or more,
/// and there are three pages at least, the file is just as long as that takes.
pub proof fn law_new_database(o: RmdbOptions, r: Result<Rmdb, RmdbError>)
    requires
        o.usable(),
        created(Some(o), r),
    ensures
        r matches Ok(db) && {
            &&& db@ == Map::<Seq<u8>, Seq<u8>>::empty()
            &&& db.layout.pagesize == o.pagesize
            &&& db.layout.flags.bits == o.flags.bits
            &&& db.layout.payload == o.pagesize - (if o.flags.bits % 2 == 1 {
                32int
            } else {
                0int
            })
            &&& db.wr.mmap@.len() as int % o.pagesize as int == 0
            &&& db.wr.mmap@.len() >= o.init_size
            &&& o.pagesize >= 1024 && o.init_size > 2 * o.pagesize ==> db.wr.mmap@.len()
                < o.init_size + o.pagesize
        },
{
    let db = r->Ok_0;
    law_payload(o.pagesize as int, o.flags);
    let (n, k) = (o.init_size as int, o.pagesize as int);
    let q = o.pages();
    assert(n <= q * k && q * k < n + k) by (nonlinear_arith)
        requires
            q == (n + k - 1) / k,
            k >= 1,
            n >= 0,
    ;
    let m = db.np();
    crate::laws_size::lemma_first_pages(db.layout, q);
    assert(q <= m);
    assert(q * k <= (m + 1) * k) by (nonlinear_arith)
        requires
            q <= m,
            k >= 1,
    ;
    vstd::arithmetic::div_mod::lemma_mod_multiples_basic(q, k);
    vstd::arithmetic::div_mod::lemma_mod_multiples_basic(m + 1, k);
    if n > 2 * k {
        assert(q >= 3) by (nonlinear_arith)
            requires
                q == (n + k - 1) / k,
                n > 2 * k,
                k >= 1,
        ;
    }
}

/// A new database has no fewer pages than it is made with.
proof fn lemma_first_pages(lay: crate::layout::Layout, np: int)
    ensures
        crate::freemap::first_pages(lay, np) >= np,
{
    let ls = crate::store::less_pages(crate::freemap::fresh_lists(np), 1, 0);
    let n = crate::freemap::map_span(lay, crate::blocks::num_blocks(ls) as int + 64);
    vstd::arithmetic::power2::lemma_pow2_pos(crate::blocks::order_of(n) as nat);
}

/// A database that is made without options has 64 pages of 4096 bytes, 4064 of which are for
/// their contents.
pub proof fn law_default_database(r: Result<Rmdb, RmdbError>)
    requires
        created(None, r),
    ensures
        r matches Ok(db) && {
            &&& db@ == Map::<Seq<u8>, Seq<u8>>::empty()
            &&& db.layout.pagesize == 4096
            &&& db.layout.payload == 4064
            &&& db.layout.flags.bits == 33
            &&& db.wr.num_pages == 64
            &&& db.wr.mmap@.len() == 262144
        },
{
    law_payload(4096, RmdbFlags { bits: 33 });
}

/// A value is refused only where the key is too long for a leaf and the value is no longer
/// than a page. Then nothing changes. Else the key gets the value, and no other key changes.
pub proof fn law_add(
    s: RmdbWTxn,
    n: RmdbWTxn,
    key: Seq<u8>,
    value: Seq<u8>,
    r: Result<(), RmdbError>,
)
    requires
        s.inv(),
        n.added(s, key, value, r),
    ensures
        ({
            let ps = s.rmdb.layout.pagesize;
            let least = if s.rmdb.layout.flags.bits % 2 == 1 {
                72int
            } else {
                8int
            };
            r is Err <==> value.len() <= ps && ps < least + (key.len() + 3) / 4 * 4
        }),
        r matches Err(e) ==> e is InvalidDataSize && n == s,
        r is Ok ==> n@ == s@.insert(key, value) && n.inv(),
        n.rmdb@ == s.rmdb@,
{
    lemma_basics(s);
    law_payload(s.ps(), s.lay().flags);
}

/// A key and a value can be added wherever they find room: the key in a leaf, with the value
/// or with what says where it is, and the value in the leaf or in pages by which the file can
/// grow.
pub proof fn law_room_to_add(
    s: RmdbWTxn,
    n: RmdbWTxn,
    key: Seq<u8>,
    value: Seq<u8>,
    r: Result<(), RmdbError>,
)
    requires
        s.inv(),
        s.takes_all(),
        key.len() <= 32767,
        value.len() <= 65535 || value.len() > s.rmdb.layout.pagesize && value.len() <= u32::MAX,
        (13 + key.len()) / 4 * 4 + 40 <= s.rmdb.layout.payload,
        value.len() + 50 + key.len() <= s.rmdb.layout.payload || value.len() + 8 + (key.len() + 3)
            / 4 * 4 >= s.rmdb.layout.payload,
        ({
            let pages = s.rmdb.wr.num_pages + 30 * height(s.tree@) + 2 * (value.len() as int
                / s.rmdb.layout.pagesize as int) + 40;
            pages <= u32::MAX && pages * s.rmdb.layout.pagesize <= usize::MAX
        }),
        n.added(s, key, value, r),
    ensures
        s.can_add(key, value),
        r is Ok,
        n@ == s@.insert(key, value),
        n.takes_all(),
{
    lemma_basics(s);
    law_payload(s.ps(), s.lay().flags);
    let lay = s.lay();
    let (k, v) = (key.len() as int, value.len() as int);
    let ps = s.ps();
    let f = far_pages(lay, k, v);
    let d = v / ps;
    assert(0 <= d && (v + ps - 1) / ps <= d + 1 && (v > ps ==> (v + ps - 1) / ps >= 1))
        by (nonlinear_arith)
        requires
            d == v / ps,
            ps >= 1,
            v >= 0,
    ;
    assert(f <= d + 1);
    assert(!too_long(lay, k, v));
    let (a, b) = ((k + 3) / 4, (13 + k) / 4);
    assert(b <= a + 3 && 4 * b <= 13 + k && crate::tree::data_ptr(k) == 4 * b);
    if f == 0 {
        assert(v <= ps);
        assert(crate::leaf::leaf_room(lay) - (8 + 4 * a) > v);
        assert(4 * b + 2 + v <= lay.payload);
    } else {
        assert(4 * b + crate::tree::far_len(lay) <= lay.payload);
    }
    assert(leaf_fits(lay, k, v));
    let all = s.np() + 30 * height(s.tree@) + 2 * d + 40;
    let need = s.np() + 2 * (f + 15 * height(s.tree@) + 15) + 8;
    assert(need <= all);
    assert(need * ps <= all * ps) by (nonlinear_arith)
        requires
            need <= all,
            ps >= 1,
    ;
    assert(reaches(s.tree@, key));
}

/// Where there are enough free pages, in one block where they have to be in a row, a database
/// does not grow for them. Else it grows by the pages that are wanted, in the least power of
/// two, by four to seven pages more, and to a multiple of four.
pub proof fn law_growth(w: RmdbWr, n: int, o: int, contiguous: bool)
    requires
        n >= 1,
        is_order(n, o),
    ensures
        n <= pow2(o as nat) < 2 * n,
        n <= w.freepages.free && (!contiguous || exists|k: int|
            o <= k < w.ls().len() && (#[trigger] w.ls()[k]).len() > 0) ==> w.pages_after(
            n,
            o,
            contiguous,
        ) == w.num_pages,
        n > w.freepages.free || contiguous && (forall|k: int|
            o <= k < w.ls().len() ==> (#[trigger] w.ls()[k]).len() == 0) ==> {
            &&& w.num_pages + pow2(o as nat) + 4 <= w.pages_after(n, o, contiguous)
                <= w.num_pages + pow2(o as nat) + 7
            &&& w.pages_after(n, o, contiguous) % 4 == 0
        },
{
    vstd::arithmetic::power2::lemma2_to64();
    if o > 0 {
        assert(pow2((o - 1) as nat) < n);
        vstd::arithmetic::power2::lemma_pow2_unfold(o as nat);
    }
}

/// The block that pages in a row are taken from is of the least order that is large enough.
pub proof fn law_block_choice(ls: Seq<Seq<u32>>, o: int)
    requires
        0 <= o,
        exists|k: int| o <= k < ls.len() && (#[trigger] ls[k]).len() > 0,
    ensures
        o <= first_order(ls, o) < ls.len(),
        ls[first_order(ls, o)].len() > 0,
        forall|k: int| o <= k < first_order(ls, o) ==> (#[trigger] ls[k]).len() == 0,
    decreases ls.len() - o,
{
    if ls[o].len() == 0 {
        law_block_choice(ls, o + 1);
    }
}

/// A key can be removed wherever the file can grow by what copies of the nodes above its leaf
/// take.
pub proof fn law_room_to_remove(s: RmdbWTxn, key: Seq<u8>)
    requires
        s.rmdb.wr.num_pages + 10 * height(s.tree@) + 8 <= u32::MAX,
        (s.rmdb.wr.num_pages + 10 * height(s.tree@) + 8) * s.rmdb.layout.pagesize <= usize::MAX,
    ensures
        s.can_del(key),
{
}

/// A transaction can be committed exactly where the map of all pages can be counted in bytes,
/// and the file can have twice its pages and a hundred more.
pub proof fn law_room_to_commit(s: RmdbWTxn)
    ensures
        room_for_map(s.np(), s.ps()) <==> 8 * s.rmdb.wr.num_pages + 327680 <= u32::MAX && (2
            * s.rmdb.wr.num_pages + 101) * s.rmdb.layout.pagesize <= usize::MAX,
{
}

/// What flag is which bit.
pub proof fn law_flag_bits(f: RmdbFlags)
    ensures
        f.has(RmdbFlags::PAGE_INTEGRITY) <==> f.bits % 2 == 1,
        f.has(RmdbFlags::PAGE_ENCRYPTION) <==> f.bits / 2 % 2 == 1,
        f.has(RmdbFlags::PAGE_FLUSH) <==> f.bits / 4 % 2 == 1,
        f.has(RmdbFlags::PAGE_SYNC_FLUSH) <==> f.bits / 8 % 2 == 1,
        f.has(RmdbFlags::TRANSACTION_FLUSH) <==> f.bits / 16 % 2 == 1,
        f.has(RmdbFlags::TRANSACTION_SYNC_FLUSH) <==> f.bits / 32 % 2 == 1,
        f.has(RmdbFlags::ZERO_PAGES) <==> f.bits / 64 % 2 == 1,
{
    let b = f.bits;
    assert((b & 1u32 == 1u32 <==> b % 2 == 1) && (b & 2u32 == 2u32 <==> b / 2 % 2 == 1) && (b & 4u32
        == 4u32 <==> b / 4 % 2 == 1) && (b & 8u32 == 8u32 <==> b / 8 % 2 == 1) && (b & 16u32 == 16u32
        <==> b / 16 % 2 == 1) && (b & 32u32 == 32u32 <==> b / 32 % 2 == 1) && (b & 64u32 == 64u32
        <==> b / 64 % 2 == 1)) by (bit_vector);
}

/// A file that has room for one page more than the database has is left as long as it is, and
/// so is one whose database does not grow. Else it gets just that room.
pub proof fn law_file_length(w: RmdbWr, ps: int, np: int)
    requires
        w.num_pages <= np,
    ensures
        np == w.num_pages ==> w.grown_len(ps, np) == w.mmap@.len(),
        np > w.num_pages && (np + 1) * ps <= w.mmap@.len() ==> w.grown_len(ps, np)
            == w.mmap@.len(),
        np > w.num_pages && (np + 1) * ps > w.mmap@.len() ==> w.grown_len(ps, np) == (np + 1) * ps,
{
}

/// A map of free pages takes as many pages as it needs and no more: for eight bytes, for four
/// bytes for each of 32 orders and for each block, and for its hash, where it has one.
pub proof fn law_map_span(lay: Layout, blocks: int)
    requires
        lay.sane(),
        blocks >= 0,
    ensures
        ({
            let need = 136 + 4 * blocks + (if lay.flags.bits % 2 == 1 {
                32int
            } else {
                0int
            });
            (map_span(lay, blocks) - 1) * lay.pagesize < need <= map_span(lay, blocks)
                * lay.pagesize
        }),
{
    law_payload(lay.ps(), lay.flags);
    let ps = lay.ps();
    let x = 136 + 4 * blocks + ps - lay.payload;
    let n = map_span(lay, blocks);
    assert((n - 1) * ps < x <= n * ps) by (nonlinear_arith)
        requires
            n == (x + ps - 1) / ps,
            ps >= 1,
    ;
}

/// A new database has the pages that were asked for, or, where the map of free pages finds no
/// room among them, at least five more, and a multiple of four. Its root is a node without
/// children.
pub proof fn law_new_pages(o: RmdbOptions, r: Result<Rmdb, RmdbError>)
    requires
        o.usable(),
        created(Some(o), r),
    ensures
        ({
            let db = r->Ok_0;
            let asked = (o.init_size + o.pagesize - 1) / o.pagesize as int;
            let img = db.wr.mmap@;
            let root = db.rootpage * o.pagesize;
            &&& db.wr.num_pages == asked && img.len() == asked * o.pagesize || {
                &&& db.wr.num_pages >= asked + 5
                &&& db.wr.num_pages % 4 == 0
                &&& img.len() == (db.wr.num_pages + 1) * o.pagesize
            }
            &&& 1 <= db.rootpage < db.wr.num_pages
            &&& root + o.pagesize <= img.len()
            &&& img[root] == 4 && img[root + 1] == 64 && img[root + 2] == 0 && img[root + 3] == 0
        }),
{
    let db = r->Ok_0;
    let lay = db.layout;
    let np = o.pages();
    let ls = crate::store::less_pages(crate::freemap::fresh_lists(np), 1, 0);
    let n = map_span(lay, crate::blocks::num_blocks(ls) as int + 64);
    vstd::arithmetic::power2::lemma_pow2_pos(crate::blocks::order_of(n) as nat);
    let root = db.rootpage as int;
    crate::tree::lemma_page_root(db.tree@);
    assert(crate::tree::has_page(db.tree@, root));
    let (img, ps) = (db.img(), lay.ps());
    law_pages(img, ps, root, 0);
    assert(0 <= root * ps && (root + 1) * ps == root * ps + ps) by (nonlinear_arith)
        requires
            root >= 0,
            ps >= 0,
    ;
    let pg = crate::bytes::page(img, ps, root);
    assert(pg[0] == img[root * ps] && pg[1] == img[root * ps + 1] && pg[2] == img[root * ps + 2]
        && pg[3] == img[root * ps + 3]);
}

} // verus!
