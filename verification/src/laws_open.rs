//! What holds of opening a file, and of the map of free pages in it.
use crate::blocks::{covers, in_free, listed};
use crate::bytes::{in_img, law_pages, lemma_page_zero, page, u32_at};
use crate::db::{layout_of, opened, Rmdb};
use crate::error::RmdbError;
use crate::flags::lemma_all_flags;
use crate::freemap::{
    is_map, lemma_next_list, map_bytes, map_page, map_pages, map_size, spelled, words,
};
use crate::hash::sha256;
use crate::laws_size::law_payload;
use crate::layout::Layout;
use crate::saved::page_type;
use vstd::arithmetic::power2::pow2;
use vstd::prelude::*;

verus! {

/// What page 0 of an image says of it.
proof fn lemma_says(img: Seq<u8>)
    requires
        img.len() >= 20,
    ensures
        ({
            let lay = layout_of(img);
            &&& lay.ps() == img[12] + 256 * img[13] + 65536 * img[14] + 16777216 * img[15]
            &&& lay.flags.bits == img[8] + 256 * img[9] + 65536 * img[10] + 16777216 * img[11]
            &&& lay.flags.bits & !crate::flags::ALL_FLAGS == 0 <==> lay.flags.bits < 128
            &&& lay.flags.integrity() <==> lay.flags.bits % 2 == 1
            &&& lay.flags.bits % 2 == 1 && lay.ps() >= 32 ==> lay.payload == lay.ps() - 32
            &&& lay.flags.bits % 2 == 0 ==> lay.payload == lay.ps()
        }),
{
    let lay = layout_of(img);
    lemma_all_flags(lay.flags.bits);
    law_payload(lay.ps(), lay.flags);
}

/// What keeps a file from being opened, in the order in which it is looked at: a file that is
/// too short for the signature, another signature, too short for the version, another version,
/// flags that there are not or a page size that cannot be, a length that is not one of whole
/// pages or of fewer pages than page 0 counts.
pub proof fn law_open_header(img: Seq<u8>, r: Result<Rmdb, RmdbError>)
    requires
        opened(img, r),
    ensures
        ({
            let signature = img[0] == 82 && img[1] == 77 && img[2] == 68 && img[3] == 66;
            let version = img[4] == 3 && img[5] == 0 && img[6] == 0 && img[7] == 0;
            let flags = img[8] + 256 * img[9] + 65536 * img[10] + 16777216 * img[11];
            let ps = img[12] + 256 * img[13] + 65536 * img[14] + 16777216 * img[15];
            let count = img[16] + 256 * img[17] + 65536 * img[18] + 16777216 * img[19];
            let n = img.len() as int;
            let possible = flags < 128 && ps > 0 && (flags % 2 == 1 ==> ps >= 32);
            &&& n < 4 ==> (r matches Err(e) && e is InvalidDBFile)
            &&& n >= 4 && !signature ==> (r matches Err(e) && e is IntegrityCheck)
            &&& 4 <= n < 8 && signature ==> (r matches Err(e) && e is InvalidDBFile)
            &&& n >= 8 && signature && !version ==> (r matches Err(e) && e is IntegrityCheck)
            &&& 8 <= n < 20 && signature && version ==> (r matches Err(e) && e is InvalidDBFile)
            &&& n >= 20 && signature && version && !possible ==> (r matches Err(e)
                && e is InvalidDBFile)
            &&& n >= 20 && signature && version && possible && (n % ps != 0 || n / ps < count)
                ==> (r matches Err(e) && e is InvalidFileSize)
            &&& (r matches Err(e) && e is InvalidFileSize) ==> n >= 20 && signature && version
                && possible && (n % ps != 0 || n / ps < count)
        }),
{
    if img.len() >= 20 {
        lemma_says(img);
    }
}

/// A file that is opened is a file of whole pages with the signature and the version, whose
/// page 0 and root have the right hashes, where there are any, and whose root is one. The
/// database has what page 0 says.
pub proof fn law_open_root(img: Seq<u8>, r: Result<Rmdb, RmdbError>)
    requires
        opened(img, r),
        r is Ok,
    ensures
        ({
            let db = r->Ok_0;
            let flags = img[8] + 256 * img[9] + 65536 * img[10] + 16777216 * img[11];
            let ps = img[12] + 256 * img[13] + 65536 * img[14] + 16777216 * img[15];
            let count = img[16] + 256 * img[17] + 65536 * img[18] + 16777216 * img[19];
            let root = img[20] + 256 * img[21] + 65536 * img[22] + 16777216 * img[23];
            &&& img.len() >= 24
            &&& img[0] == 82 && img[1] == 77 && img[2] == 68 && img[3] == 66
            &&& img[4] == 3 && img[5] == 0 && img[6] == 0 && img[7] == 0
            &&& flags < 128
            &&& ps > 0 && img.len() as int % ps == 0 && count <= img.len() as int / ps
            &&& 1 <= root
            &&& (root + 1) * ps <= img.len()
            &&& (img[root * ps + 1] / 64) % 2 == 1
            &&& flags % 2 == 1 ==> {
                &&& img.subrange(ps - 32, ps) == sha256(img.subrange(0, ps - 32))
                &&& img.subrange(root * ps + ps - 32, root * ps + ps) == sha256(
                    img.subrange(root * ps, root * ps + ps - 32),
                )
            }
            &&& db.wr.mmap@ == img
            &&& db.layout.pagesize == ps
            &&& db.layout.flags.bits == flags
            &&& db.layout.payload == (if flags % 2 == 1 {
                ps - 32
            } else {
                ps
            })
            &&& db.rootpage == root
            &&& db.wr.num_pages == count
        }),
{
    let lay = layout_of(img);
    let ps = lay.ps();
    let root = u32_at(img, 20);
    lemma_says(img);
    law_pages(img, ps, 0, 0);
    law_pages(img, ps, root, 0);
    assert((root + 1) * ps == root * ps + ps && 0 <= root * ps) by (nonlinear_arith)
        requires
            root >= 0,
            ps >= 0,
    ;
    let zero = page(img, ps, 0);
    assert(0 * ps == 0) by (nonlinear_arith);
    assert(ps <= img.len());
    assert(zero =~= img.subrange(0, ps));
    lemma_page_zero(img, ps);
    assert(zero[16] == img[16] && zero[17] == img[17] && zero[18] == img[18] && zero[19] == img[19]);
    assert(zero[20] == img[20] && zero[21] == img[21] && zero[22] == img[22] && zero[23] == img[23]);
    let rp = page(img, ps, root);
    assert(rp[0] == img[root * ps] && rp[1] == img[root * ps + 1]);
    let (lo, hi) = (rp[0], rp[1]);
    let ty = page_type(img, lay, root) as u16;
    assert(ty == lo + 256 * hi);
    assert(ty & 0x4000u16 != 0 ==> (hi / 64) % 2 == 1) by (bit_vector)
        requires
            ty == lo + 256 * hi,
    ;
    if lay.flags.bits % 2 == 1 {
        assert(zero.subrange(ps - 32, ps) =~= img.subrange(ps - 32, ps));
        assert(zero.subrange(0, ps - 32) =~= img.subrange(0, ps - 32));
        assert(rp.subrange(ps - 32, ps) =~= img.subrange(root * ps + ps - 32, root * ps + ps));
        assert(rp.subrange(0, ps - 32) =~= img.subrange(root * ps, root * ps + ps - 32));
    }
}

/// How many numbers come before those of a list in the map.
proof fn lemma_before(ls: Seq<Seq<u32>>)
    ensures
        words(ls).len() == ls.len() + ls.flatten_alt().len(),
    decreases ls.len(),
{
    if ls.len() > 0 {
        lemma_before(ls.drop_last());
    }
}

/// Where the numbers of a list stand in the map.
proof fn lemma_map_numbers(img: Seq<u8>, lay: Layout, fp: int, ls: Seq<Seq<u32>>, o: int)
    requires
        lay.sane(),
        in_img(img, lay.ps(), fp),
        fp * lay.ps() + 8 + map_size(img, lay, fp) <= img.len(),
        spelled(map_bytes(img, lay, fp), ls),
        0 <= o < 32,
    ensures
        ({
            let at = fp * lay.ps() + 8 + 4 * (o + ls.take(o).flatten_alt().len());
            let size = img[fp * lay.ps() + 4] + 256 * img[fp * lay.ps() + 5] + 65536 * img[fp
                * lay.ps() + 6] + 16777216 * img[fp * lay.ps() + 7];
            &&& ls.len() == 32
            &&& 0 <= fp * lay.ps()
            &&& map_size(img, lay, fp) == size
            &&& at + 4 + 4 * ls[o].len() <= fp * lay.ps() + 8 + size
            &&& img[at] + 256 * img[at + 1] + 65536 * img[at + 2] + 16777216 * img[at + 3]
                == ls[o].len()
            &&& forall|i: int|
                #![trigger ls[o][i]]
                0 <= i < ls[o].len() ==> img[at + 4 + 4 * i] + 256 * img[at + 5 + 4 * i] + 65536
                    * img[at + 6 + 4 * i] + 16777216 * img[at + 7 + 4 * i] == ls[o][i]
        }),
{
    let ps = lay.ps();
    let b = map_bytes(img, lay, fp);
    law_pages(img, ps, fp, 8 + map_size(img, lay, fp));
    assert(0 <= fp * ps && (fp + 1) * ps == fp * ps + ps) by (nonlinear_arith)
        requires
            0 <= fp,
            ps >= 0,
    ;
    let pg = page(img, ps, fp);
    assert(pg[4] == img[fp * ps + 4] && pg[5] == img[fp * ps + 5] && pg[6] == img[fp * ps + 6]
        && pg[7] == img[fp * ps + 7]);
    let got = ls.take(o);
    lemma_next_list(b, ls, got);
    lemma_before(got);
    let w = words(got).len() as int;
    assert forall|j: int| 0 <= j < b.len() implies b[j] == img[fp * ps + j] by {}
    assert(b[8 + 4 * w] == img[fp * ps + 8 + 4 * w] && b[9 + 4 * w] == img[fp * ps + 9 + 4 * w]
        && b[10 + 4 * w] == img[fp * ps + 10 + 4 * w] && b[11 + 4 * w] == img[fp * ps + 11 + 4 * w]);
    assert forall|i: int| #![trigger ls[o][i]] 0 <= i < ls[o].len() implies ({
        let at = fp * ps + 8 + 4 * w;
        img[at + 4 + 4 * i] + 256 * img[at + 5 + 4 * i] + 65536 * img[at + 6 + 4 * i] + 16777216
            * img[at + 7 + 4 * i] == ls[o][i]
    }) by {
        let j = 8 + 4 * (w + 1 + i);
        assert(u32_at(b, j) == ls[o][i]);
        assert(b[j] == img[fp * ps + j] && b[j + 1] == img[fp * ps + j + 1] && b[j + 2] == img[fp
            * ps + j + 2] && b[j + 3] == img[fp * ps + j + 3]);
    }
}

/// The map of free pages, byte by byte: from the fifth byte of its first page on its size, and
/// then for each of the 32 orders how many blocks there are, and their first pages. With
/// hashes, its last page ends in the hash of all of that.
pub proof fn law_open_map(img: Seq<u8>, r: Result<Rmdb, RmdbError>, o: int)
    requires
        opened(img, r),
        r is Ok,
        0 <= o < 32,
    ensures
        ({
            let db = r->Ok_0;
            let ls = db.wr.ls();
            let ps = db.layout.pagesize as int;
            let map = img[24] + 256 * img[25] + 65536 * img[26] + 16777216 * img[27];
            let span = img[28] + 256 * img[29] + 65536 * img[30] + 16777216 * img[31];
            let size = img[map * ps + 4] + 256 * img[map * ps + 5] + 65536 * img[map * ps + 6]
                + 16777216 * img[map * ps + 7];
            let at = map * ps + 8 + 4 * (o + ls.take(o).flatten_alt().len());
            &&& ls.len() == 32
            &&& map * ps + 8 + size <= img.len()
            &&& at + 4 + 4 * ls[o].len() <= map * ps + 8 + size
            &&& img[at] + 256 * img[at + 1] + 65536 * img[at + 2] + 16777216 * img[at + 3]
                == ls[o].len()
            &&& forall|i: int|
                #![trigger ls[o][i]]
                0 <= i < ls[o].len() ==> img[at + 4 + 4 * i] + 256 * img[at + 5 + 4 * i] + 65536
                    * img[at + 6 + 4 * i] + 16777216 * img[at + 7 + 4 * i] == ls[o][i]
            &&& db.layout.flags.bits % 2 == 1 ==> img.subrange(
                (map + span) * ps - 32,
                (map + span) * ps,
            ) == sha256(img.subrange(map * ps, map * ps + 8 + size))
        }),
{
    let db = r->Ok_0;
    let lay = db.layout;
    let ps = lay.ps();
    law_open_root(img, r);
    law_payload(ps, lay.flags);
    let root = db.rootpage as int;
    assert(ps <= (root + 1) * ps) by (nonlinear_arith)
        requires
            root >= 0,
            ps >= 0,
    ;
    lemma_zero_in(img, ps);
    lemma_page_zero(img, ps);
    let zero = page(img, ps, 0);
    assert(zero[24] == img[24] && zero[25] == img[25] && zero[26] == img[26] && zero[27] == img[27]);
    assert(zero[28] == img[28] && zero[29] == img[29] && zero[30] == img[30] && zero[31] == img[31]);
    let fp = map_page(img, lay);
    let fs = map_pages(img, lay);
    lemma_map_numbers(img, lay, fp, db.wr.ls(), o);
    if lay.flags.bits % 2 == 1 {
        let last = fp + fs - 1;
        law_pages(img, ps, last, 0);
        law_pages(img, ps, fp, 8 + map_size(img, lay, fp));
        assert(0 <= last * ps && last * ps + ps == (fp + fs) * ps && (last + 1) * ps == last * ps
            + ps) by (nonlinear_arith)
            requires
                last == fp + fs - 1,
                last >= 0,
                ps >= 0,
        ;
        let lp = page(img, ps, last);
        assert(lp.subrange(ps - 32, ps) =~= img.subrange(last * ps + ps - 32, last * ps + ps));
    }
}

/// A file of pages has page 0.
proof fn lemma_zero_in(img: Seq<u8>, ps: int)
    requires
        1 <= ps <= img.len(),
    ensures
        in_img(img, ps, 0),
{
    law_pages(img, ps, 0, 0);
}

/// The map of a saved database says what its free pages are: those of the blocks that it
/// names, a block of order `o` with two to the power of `o` pages.
pub proof fn law_saved_map(db: Rmdb, o: int, p: int)
    requires
        db.wf(),
        0 <= o < 32,
    ensures
        ({
            let img = db.wr.mmap@;
            let ls = db.wr.ls();
            let ps = db.layout.pagesize as int;
            let map = img[24] + 256 * img[25] + 65536 * img[26] + 16777216 * img[27];
            let at = map * ps + 8 + 4 * (o + ls.take(o).flatten_alt().len());
            &&& ls.len() == 32
            &&& at + 4 + 4 * ls[o].len() <= img.len()
            &&& img[at] + 256 * img[at + 1] + 65536 * img[at + 2] + 16777216 * img[at + 3]
                == ls[o].len()
            &&& forall|i: int|
                #![trigger ls[o][i]]
                0 <= i < ls[o].len() ==> img[at + 4 + 4 * i] + 256 * img[at + 5 + 4 * i] + 65536
                    * img[at + 6 + 4 * i] + 16777216 * img[at + 7 + 4 * i] == ls[o][i]
        }),
        in_free(db.wr.ls(), p) <==> exists|k: int, i: int|
            0 <= k < 32 && 0 <= i < db.wr.ls()[k].len() && #[trigger] db.wr.ls()[k][i] <= p
                < db.wr.ls()[k][i] + pow2(k as nat),
        in_free(db.wr.ls(), p) ==> 1 <= p < db.wr.num_pages,
{
    let img = db.img();
    let lay = db.layout;
    let ps = lay.ps();
    let ls = db.wr.ls();
    lemma_page_zero(img, ps);
    let zero = page(img, ps, 0);
    assert(zero[24] == img[24] && zero[25] == img[25] && zero[26] == img[26] && zero[27] == img[27]);
    let fp = db.base().fp;
    crate::blocks::lemma_total_bound(ls, db.np());
    law_pages(img, ps, fp, 0);
    lemma_map_numbers(img, lay, fp, ls, o);
    assert forall|k: int, i: int|
        0 <= k < 32 && 0 <= i < ls[k].len() && #[trigger] ls[k][i] <= p < ls[k][i] + pow2(
            k as nat,
        ) implies in_free(ls, p) by {
        assert(covers(ls, k, i, p));
    }
    if in_free(ls, p) {
        let (k, i) = choose|k: int, i: int| #[trigger] covers(ls, k, i, p);
        assert(listed(ls, k, i));
        assert(ls[k][i] <= p < ls[k][i] + pow2(k as nat));
    }
}

/// A file whose page 0 and root are right, and in which the map of free pages lies, is opened
/// where the map has the right hash, if any, and is a map. Where something in page 0 or in
/// the root is not right, the file is not opened, and is told which of the two it is: a hash,
/// a root that is none, or a place outside the file.
pub proof fn law_open_rest(img: Seq<u8>, r: Result<Rmdb, RmdbError>)
    requires
        opened(img, r),
        img.len() >= 24,
        img[0] == 82 && img[1] == 77 && img[2] == 68 && img[3] == 66,
        img[4] == 3 && img[5] == 0 && img[6] == 0 && img[7] == 0,
        ({
            let flags = img[8] + 256 * img[9] + 65536 * img[10] + 16777216 * img[11];
            let ps = img[12] + 256 * img[13] + 65536 * img[14] + 16777216 * img[15];
            let count = img[16] + 256 * img[17] + 65536 * img[18] + 16777216 * img[19];
            &&& flags < 128
            &&& ps >= 64
            &&& img.len() as int % ps == 0
            &&& count <= img.len() as int / ps
        }),
    ensures
        ({
            let flags = img[8] + 256 * img[9] + 65536 * img[10] + 16777216 * img[11];
            let ps = img[12] + 256 * img[13] + 65536 * img[14] + 16777216 * img[15];
            let root = img[20] + 256 * img[21] + 65536 * img[22] + 16777216 * img[23];
            let map = img[24] + 256 * img[25] + 65536 * img[26] + 16777216 * img[27];
            let span = img[28] + 256 * img[29] + 65536 * img[30] + 16777216 * img[31];
            let size = img[map * ps + 4] + 256 * img[map * ps + 5] + 65536 * img[map * ps + 6]
                + 16777216 * img[map * ps + 7];
            let zero = flags % 2 == 1 ==> img.subrange(ps - 32, ps) == sha256(
                img.subrange(0, ps - 32),
            );
            let inside = (root + 1) * ps <= img.len();
            let hashed = flags % 2 == 1 ==> img.subrange(root * ps + ps - 32, root * ps + ps)
                == sha256(img.subrange(root * ps, root * ps + ps - 32));
            let is_root = (img[root * ps + 1] / 64) % 2 == 1;
            let there = (map + 1) * ps <= img.len() && map * ps + 8 + size <= img.len();
            let ends = flags % 2 == 1 ==> 1 <= map + span <= 0x1_0000_0000 && (map + span) * ps
                <= img.len();
            let sum = flags % 2 == 1 ==> img.subrange((map + span) * ps - 32, (map + span) * ps)
                == sha256(img.subrange(map * ps, map * ps + 8 + size));
            let list = is_map(img.subrange(map * ps, map * ps + 8 + size));
            let first = root != 0 && zero && inside && hashed && is_root;
            &&& root == 0 || !zero ==> (r matches Err(e) && e is IntegrityCheck)
            &&& root != 0 && zero && !inside ==> (r matches Err(e) && e is InvalidDBFile)
            &&& root != 0 && zero && inside && !(hashed && is_root) ==> (r matches Err(e)
                && e is IntegrityCheck)
            &&& first && !(there && ends) ==> (r matches Err(e) && e is InvalidDBFile)
            &&& first && there && ends && !sum ==> (r matches Err(e) && e is IntegrityCheck)
            &&& first && there && ends && sum ==> (r is Ok <==> list)
            &&& first && there && ends && sum && !list ==> (r matches Err(e)
                && e is InvalidDBFile)
        }),
{
    let lay = layout_of(img);
    let ps = lay.ps();
    let root = u32_at(img, 20);
    lemma_says(img);
    let n = img.len() as int;
    assert(ps <= n) by (nonlinear_arith)
        requires
            n % ps == 0,
            n >= 1,
            ps >= 1,
    ;
    lemma_zero_in(img, ps);
    lemma_page_zero(img, ps);
    law_pages(img, ps, 0, 0);
    assert(0 * ps == 0) by (nonlinear_arith);
    let zero = page(img, ps, 0);
    assert(zero =~= img.subrange(0, ps));
    assert(zero[24] == img[24] && zero[25] == img[25] && zero[26] == img[26] && zero[27] == img[27]);
    assert(zero[28] == img[28] && zero[29] == img[29] && zero[30] == img[30] && zero[31] == img[31]);
    law_pages(img, ps, root, 0);
    assert((root + 1) * ps == root * ps + ps && 0 <= root * ps) by (nonlinear_arith)
        requires
            root >= 0,
            ps >= 0,
    ;
    if lay.flags.bits % 2 == 1 {
        assert(zero.subrange(ps - 32, ps) =~= img.subrange(ps - 32, ps));
        assert(zero.subrange(0, ps - 32) =~= img.subrange(0, ps - 32));
    }
    let rp = page(img, ps, root);
    if in_img(img, ps, root) {
        assert(rp[0] == img[root * ps] && rp[1] == img[root * ps + 1]);
        let (lo, hi) = (rp[0], rp[1]);
        let ty = page_type(img, lay, root) as u16;
        assert(ty == lo + 256 * hi);
        assert(ty & 0x4000u16 != 0 <==> (hi / 64) % 2 == 1) by (bit_vector)
            requires
                ty == lo + 256 * hi,
        ;
        if lay.flags.bits % 2 == 1 {
            assert(rp.subrange(ps - 32, ps) =~= img.subrange(root * ps + ps - 32, root * ps + ps));
            assert(rp.subrange(0, ps - 32) =~= img.subrange(root * ps, root * ps + ps - 32));
        }
    }
    let fp = map_page(img, lay);
    let fs = map_pages(img, lay);
    let last = fp + fs - 1;
    let size = map_size(img, lay, fp);
    law_pages(img, ps, fp, 8 + size);
    law_pages(img, ps, last, 0);
    assert(0 <= fp * ps && (fp + 1) * ps == fp * ps + ps && last * ps + ps == (fp + fs) * ps && (last
        + 1) * ps == (fp + fs) * ps && (last >= 0 ==> 0 <= last * ps)) by (nonlinear_arith)
        requires
            last == fp + fs - 1,
            fp >= 0,
            ps >= 0,
    ;
    if in_img(img, ps, fp) {
        let mp = page(img, ps, fp);
        assert(mp[4] == img[fp * ps + 4] && mp[5] == img[fp * ps + 5] && mp[6] == img[fp * ps + 6]
            && mp[7] == img[fp * ps + 7]);
    }
    if lay.flags.bits % 2 == 1 && in_img(img, ps, last) {
        let lp = page(img, ps, last);
        assert(lp.subrange(ps - 32, ps) =~= img.subrange(last * ps + ps - 32, last * ps + ps));
    }
}

} // verus!
