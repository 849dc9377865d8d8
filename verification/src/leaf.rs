//! Writing a leaf.
use crate::bytes::{
    in_img, le16, lemma_le16, lemma_le32, lemma_page_len, page, same_page, set_bytes, set_u16,
    set_u32, splice, u16_at, u32_at,
};
use crate::flags::RmdbFlags;
use crate::hash::hash_of;
use crate::layout::{
    align, aligned, Layout, LEAF_CELL, LEAF_KEYNUM, LEAF_KEYPTRS, LEAF_PL_KEY, PAGE_LEAF,
    POS_PAGETYPE, PTRSZ,
};
use crate::options::RMDB_INTGSIZE;
use crate::tree::{data_ptr, far_len, leaf_page};
use crate::wtxn::marked;
use vstd::prelude::*;

verus! {

/// What of a leaf a value in the leaf is held to leave free.
pub open spec fn leaf_room(lay: Layout) -> int {
    if lay.flags.integrity() {
        lay.payload - RMDB_INTGSIZE
    } else {
        lay.payload as int
    }
}

/// What a key of this length is held to take of a leaf besides the value.
pub open spec fn leaf_overhead(klen: int) -> int {
    PTRSZ + LEAF_KEYPTRS + aligned(klen)
}

/// Whether a value is short enough to be looked at for room in the leaf: no longer than a
/// page.
pub open spec fn is_short(lay: Layout, vlen: int) -> bool {
    vlen <= lay.ps()
}

/// Whether a key is too long for a leaf, as far as that is looked at: with a short value.
pub open spec fn too_long(lay: Layout, klen: int, vlen: int) -> bool {
    is_short(lay, vlen) && leaf_room(lay) < leaf_overhead(klen)
}

/// How many pages besides the leaf a value takes: none if there is room in the leaf, else
/// as many as its bytes fill.
pub open spec fn far_pages(lay: Layout, klen: int, vlen: int) -> int {
    if !is_short(lay, vlen) {
        (vlen + lay.ps() - 1) / lay.ps()
    } else if leaf_room(lay) - leaf_overhead(klen) > vlen {
        0
    } else {
        1
    }
}

/// Whether key and value, or key and place of the value, fit in a leaf and in its fields.
pub open spec fn leaf_fits(lay: Layout, klen: int, vlen: int) -> bool {
    &&& klen <= 0x7fff
    &&& if far_pages(lay, klen, vlen) == 0 {
        vlen <= 0xffff && data_ptr(klen) + 2 + vlen <= lay.payload
    } else {
        vlen <= u32::MAX && data_ptr(klen) + far_len(lay) <= lay.payload
    }
}

/// Whether two pages begin with the same `n` bytes.
spec fn same_head(a: Seq<u8>, b: Seq<u8>, n: int) -> bool {
    &&& a.len() == b.len()
    &&& n <= a.len()
    &&& forall|i: int| 0 <= i < n ==> #[trigger] b[i] == a[i]
}

/// Whether a page begins as a leaf with this key does.
spec fn leaf_head(pg: Seq<u8>, key: Seq<u8>, klen: int) -> bool {
    &&& u16_at(pg, 0) == 0x0008
    &&& u16_at(pg, 2) == 1
    &&& u16_at(pg, 4) == 8
    &&& u16_at(pg, 8) == klen
    &&& pg.subrange(10, 10 + key.len() as int) == key
}

/// Whether two pages have the same bytes where a leaf has none: between where its cell is and
/// the cell, between the end `a` of the key and the value at `b`, and from `c` on.
#[verifier::opaque]
pub open spec fn untouched(x: Seq<u8>, y: Seq<u8>, a: int, b: int, c: int) -> bool {
    forall|i: int|
        6 <= i < 8 || a <= i < b || c <= i < x.len() ==> #[trigger] y[i] == x[i]
}

/// Whether a leaf has zeros where it has nothing else, before its hash.
#[verifier::opaque]
pub open spec fn blank_around(pg: Seq<u8>, lay: Layout, klen: int, vlen: int, count: int) -> bool {
    let at = data_ptr(klen);
    let end = if count == 0 {
        at + 2 + vlen
    } else {
        at + far_len(lay)
    };
    forall|i: int|
        6 <= i < 8 || 10 + klen <= i < at || end <= i < lay.payload ==> #[trigger] pg[i] == 0
}

/// A page that was emptied before a leaf was written to it has zeros around the leaf.
pub(crate) proof fn lemma_blank(
    a: Seq<u8>,
    b: Seq<u8>,
    c: Seq<u8>,
    lay: Layout,
    klen: int,
    vlen: int,
    count: int,
)
    requires
        lay.sane(),
        a.len() == lay.ps(),
        b.len() == lay.ps(),
        klen >= 0,
        vlen >= 0,
        marked(a, b, lay, true),
        untouched(
            b,
            c,
            10 + klen,
            data_ptr(klen),
            if count == 0 {
                data_ptr(klen) + 2 + vlen
            } else {
                data_ptr(klen) + far_len(lay)
            },
        ),
        data_ptr(klen) <= lay.payload,
    ensures
        blank_around(c, lay, klen, vlen, count),
{
    reveal(untouched);
    reveal(blank_around);
    let at = data_ptr(klen);
    let end = if count == 0 {
        at + 2 + vlen
    } else {
        at + far_len(lay)
    };
    assert forall|i: int|
        6 <= i < 8 || 10 + klen <= i < at || end <= i < lay.payload implies #[trigger] c[i] == 0 by {
        assert(c[i] == b[i]);
        assert(b[i] == 0);
    }
}

/// The head of a leaf stays where its bytes do.
proof fn lemma_head_kept(a: Seq<u8>, b: Seq<u8>, key: Seq<u8>, klen: int, n: int)
    requires
        leaf_head(a, key, klen),
        same_head(a, b, n),
        10 + key.len() <= n,
    ensures
        leaf_head(b, key, klen),
{
    assert(b.subrange(10, 10 + key.len() as int) =~= a.subrange(10, 10 + key.len() as int));
    assert(b[0] == a[0] && b[1] == a[1] && b[2] == a[2] && b[3] == a[3] && b[4] == a[4] && b[5]
        == a[5] && b[8] == a[8] && b[9] == a[9]);
}

/// Writes the head of a leaf: its type, its one key, and where that is.
fn write_head(img: &mut Vec<u8>, lay: Layout, leaf: u32, key: &[u8], klen: u16)
    requires
        lay.sane(),
        in_img(old(img)@, lay.ps(), leaf as int),
        10 + key.len() <= lay.payload,
    ensures
        final(img).len() == old(img).len(),
        leaf_head(page(final(img)@, lay.ps(), leaf as int), key@, klen as int),
        untouched(
            page(old(img)@, lay.ps(), leaf as int),
            page(final(img)@, lay.ps(), leaf as int),
            10 + key.len() as int,
            10 + key.len() as int,
            10 + key.len() as int,
        ),
        forall|q: int| q != leaf ==> #[trigger] same_page(old(img)@, final(img)@, lay.ps(), q),
        forall|q: int|
            in_img(old(img)@, lay.ps(), q) == #[trigger] in_img(final(img)@, lay.ps(), q),
{
    let ps: usize = lay.pagesize;
    let ghost i0 = img@;
    let ghost p0 = page(i0, lay.ps(), leaf as int);
    proof {
        lemma_page_len(i0, lay.ps(), leaf as int);
    }
    set_u16(img, ps, leaf, POS_PAGETYPE, PAGE_LEAF);
    let ghost i1 = img@;
    set_u16(img, ps, leaf, LEAF_KEYNUM, 1);
    let ghost i2 = img@;
    set_u16(img, ps, leaf, LEAF_KEYPTRS, LEAF_CELL as u16);
    let ghost i3 = img@;
    set_u16(img, ps, leaf, LEAF_CELL, klen);
    let ghost i4 = img@;
    set_bytes(img, ps, leaf, LEAF_CELL + LEAF_PL_KEY, key);
    proof {
        let i5 = img@;
        lemma_head_chain(
            p0,
            page(i1, lay.ps(), leaf as int),
            page(i2, lay.ps(), leaf as int),
            page(i3, lay.ps(), leaf as int),
            page(i4, lay.ps(), leaf as int),
            page(i5, lay.ps(), leaf as int),
            key@,
            klen,
        );
        assert forall|q: int| q != leaf implies #[trigger] same_page(i0, i5, lay.ps(), q) by {
            assert(same_page(i0, i1, lay.ps(), q));
            assert(same_page(i1, i2, lay.ps(), q));
            assert(same_page(i2, i3, lay.ps(), q));
            assert(same_page(i3, i4, lay.ps(), q));
            assert(same_page(i4, i5, lay.ps(), q));
        }
        assert forall|q: int| in_img(i0, lay.ps(), q) == #[trigger] in_img(i5, lay.ps(), q) by {
            assert(in_img(i3, lay.ps(), q) == in_img(i4, lay.ps(), q));
            assert(in_img(i2, lay.ps(), q) == in_img(i3, lay.ps(), q));
            assert(in_img(i1, lay.ps(), q) == in_img(i2, lay.ps(), q));
        }
    }
}

/// The five writes that make the head of a leaf.
proof fn lemma_head_chain(
    p0: Seq<u8>,
    p1: Seq<u8>,
    p2: Seq<u8>,
    p3: Seq<u8>,
    p4: Seq<u8>,
    p5: Seq<u8>,
    key: Seq<u8>,
    klen: u16,
)
    requires
        10 + key.len() <= p0.len(),
        p1 == splice(p0, 0, le16(0x0008)),
        p2 == splice(p1, 2, le16(1)),
        p3 == splice(p2, 4, le16(8)),
        p4 == splice(p3, 8, le16(klen)),
        p5 == splice(p4, 10, key),
    ensures
        leaf_head(p5, key, klen as int),
        p5.len() == p0.len(),
        untouched(p0, p5, 10 + key.len() as int, 10 + key.len() as int, 10 + key.len() as int),
{
    reveal(untouched);
    lemma_le16(p0, 0, 0x0008);
    lemma_le16(p1, 2, 1);
    lemma_le16(p2, 4, 8);
    lemma_le16(p3, 8, klen);
    assert(p5[0] == p1[0] && p5[1] == p1[1]);
    assert(p5[2] == p2[2] && p5[3] == p2[3]);
    assert(p5[4] == p3[4] && p5[5] == p3[5]);
    assert(p5[8] == p4[8] && p5[9] == p4[9]);
    assert(p5.subrange(10, 10 + key.len() as int) =~= key);
}

/// Writes a leaf with its value.
pub(crate) fn write_near(img: &mut Vec<u8>, lay: Layout, leaf: u32, key: &[u8], value: &[u8])
    requires
        lay.sane(),
        in_img(old(img)@, lay.ps(), leaf as int),
        key.len() <= 0x7fff,
        value.len() <= 0xffff,
        data_ptr(key.len() as int) + 2 + value.len() <= lay.payload,
    ensures
        final(img).len() == old(img).len(),
        leaf_page(page(final(img)@, lay.ps(), leaf as int), lay, key@, value@, 0, 0, true),
        untouched(
            page(old(img)@, lay.ps(), leaf as int),
            page(final(img)@, lay.ps(), leaf as int),
            10 + key.len() as int,
            data_ptr(key.len() as int),
            data_ptr(key.len() as int) + 2 + value.len(),
        ),
        forall|q: int| q != leaf ==> #[trigger] same_page(old(img)@, final(img)@, lay.ps(), q),
        forall|q: int|
            in_img(old(img)@, lay.ps(), q) == #[trigger] in_img(final(img)@, lay.ps(), q),
{
    let ps: usize = lay.pagesize;
    let ghost i0 = img@;
    let klen: u16 = key.len() as u16;
    let dataptr: usize = align(LEAF_CELL + 2 + key.len());
    write_head(img, lay, leaf, key, klen);
    let ghost i1 = img@;
    set_u16(img, ps, leaf, dataptr, value.len() as u16);
    let ghost i2 = img@;
    set_bytes(img, ps, leaf, dataptr + 2, value);
    proof {
        let i3 = img@;
        let p1 = page(i1, lay.ps(), leaf as int);
        let p2 = page(i2, lay.ps(), leaf as int);
        let p3 = page(i3, lay.ps(), leaf as int);
        lemma_page_len(i1, lay.ps(), leaf as int);
        lemma_le16(p1, dataptr as int, value.len() as u16);
        lemma_head_kept(p1, p3, key@, klen as int, dataptr as int);
        assert(p3[dataptr as int] == p2[dataptr as int] && p3[dataptr + 1] == p2[dataptr + 1]);
        assert(p3.subrange(dataptr + 2, dataptr + 2 + value@.len()) =~= value@);
        reveal(untouched);
        lemma_page_len(i0, lay.ps(), leaf as int);
        let p0 = page(i0, lay.ps(), leaf as int);
        let (a, b) = (10 + key@.len(), dataptr + 2 + value@.len());
        assert forall|i: int| 6 <= i < 8 || a <= i < dataptr || b <= i < p0.len() implies #[trigger] p3[i]
            == p0[i] by {
            assert(p3[i] == p2[i] && p2[i] == p1[i] && p1[i] == p0[i]);
        }
        assert forall|q: int| q != leaf implies #[trigger] same_page(i0, i3, lay.ps(), q) by {
            assert(same_page(i0, i1, lay.ps(), q));
            assert(same_page(i1, i2, lay.ps(), q));
            assert(same_page(i2, i3, lay.ps(), q));
        }
        assert forall|q: int| in_img(i0, lay.ps(), q) == #[trigger] in_img(i3, lay.ps(), q) by {
            assert(in_img(i1, lay.ps(), q) == in_img(i2, lay.ps(), q));
            assert(in_img(i0, lay.ps(), q) == in_img(i1, lay.ps(), q));
        }
    }
}

/// Writes a leaf whose value is in the pages from `first` on.
pub(crate) fn write_far(
    img: &mut Vec<u8>,
    lay: Layout,
    leaf: u32,
    key: &[u8],
    value: &[u8],
    first: u32,
    Ghost(count): Ghost<int>,
)
    requires
        lay.sane(),
        in_img(old(img)@, lay.ps(), leaf as int),
        key.len() <= 0x7fff,
        value.len() <= u32::MAX,
        data_ptr(key.len() as int) + far_len(lay) <= lay.payload,
        count != 0,
    ensures
        final(img).len() == old(img).len(),
        leaf_page(
            page(final(img)@, lay.ps(), leaf as int),
            lay,
            key@,
            value@,
            first as int,
            count,
            true,
        ),
        untouched(
            page(old(img)@, lay.ps(), leaf as int),
            page(final(img)@, lay.ps(), leaf as int),
            10 + key.len() as int,
            data_ptr(key.len() as int),
            data_ptr(key.len() as int) + far_len(lay),
        ),
        forall|q: int| q != leaf ==> #[trigger] same_page(old(img)@, final(img)@, lay.ps(), q),
        forall|q: int|
            in_img(old(img)@, lay.ps(), q) == #[trigger] in_img(final(img)@, lay.ps(), q),
{
    let ps: usize = lay.pagesize;
    let ghost i0 = img@;
    let klen: u16 = key.len() as u16 | 0x8000;
    proof {
        let k = key.len() as u16;
        assert(k <= 0x7fff ==> k | 0x8000 == k + 0x8000) by (bit_vector);
    }
    let dataptr: usize = align(LEAF_CELL + 2 + key.len());
    let ghost dp = dataptr as int;
    write_head(img, lay, leaf, key, klen);
    let ghost i1 = img@;
    set_u32(img, ps, leaf, dataptr, value.len() as u32);
    let ghost i2 = img@;
    set_u32(img, ps, leaf, dataptr + 4, first);
    let ghost i3 = img@;
    let ghost p1 = page(i1, lay.ps(), leaf as int);
    let ghost p2 = page(i2, lay.ps(), leaf as int);
    let ghost p3 = page(i3, lay.ps(), leaf as int);
    proof {
        lemma_page_len(i1, lay.ps(), leaf as int);
        lemma_le32(p1, dp, value.len() as u32);
        lemma_le32(p2, dp + 4, first);
        lemma_head_kept(p1, p3, key@, klen as int, dp);
        assert(p3[dp] == p2[dp] && p3[dp + 1] == p2[dp + 1] && p3[dp + 2] == p2[dp + 2] && p3[dp
            + 3] == p2[dp + 3]);
        reveal(untouched);
        lemma_page_len(i0, lay.ps(), leaf as int);
        let p0 = page(i0, lay.ps(), leaf as int);
        assert forall|i: int|
            6 <= i < 8 || 10 + key@.len() <= i < dp || dp + 8 <= i < p0.len() implies #[trigger] p3[i]
            == p0[i] by {
            assert(p3[i] == p2[i] && p2[i] == p1[i] && p1[i] == p0[i]);
        }
        assert forall|q: int| q != leaf implies #[trigger] same_page(i0, i3, lay.ps(), q) by {
            assert(same_page(i0, i1, lay.ps(), q));
            assert(same_page(i1, i2, lay.ps(), q));
            assert(same_page(i2, i3, lay.ps(), q));
        }
        assert forall|q: int| in_img(i0, lay.ps(), q) == #[trigger] in_img(i3, lay.ps(), q) by {
            assert(in_img(i1, lay.ps(), q) == in_img(i2, lay.ps(), q));
            assert(in_img(i0, lay.ps(), q) == in_img(i1, lay.ps(), q));
        }
    }
    if lay.flags.contains(RmdbFlags::PAGE_INTEGRITY) {
        let hash: [u8; 32] = hash_of(value);
        set_bytes(img, ps, leaf, dataptr + 8, hash.as_slice());
        proof {
            let i4 = img@;
            let p4 = page(i4, lay.ps(), leaf as int);
            lemma_head_kept(p3, p4, key@, klen as int, dp);
            assert(u32_at(p4, dp) == u32_at(p3, dp)) by {
                assert(p4[dp] == p3[dp] && p4[dp + 1] == p3[dp + 1] && p4[dp + 2] == p3[dp + 2]
                    && p4[dp + 3] == p3[dp + 3]);
            }
            assert(u32_at(p4, dp + 4) == u32_at(p3, dp + 4)) by {
                assert(p4[dp + 4] == p3[dp + 4] && p4[dp + 5] == p3[dp + 5] && p4[dp + 6] == p3[dp
                    + 6] && p4[dp + 7] == p3[dp + 7]);
            }
            assert(p4.subrange(dp + 8, dp + 40) =~= hash@);
            let p0 = page(i0, lay.ps(), leaf as int);
            reveal(untouched);
            assert forall|i: int|
                6 <= i < 8 || 10 + key@.len() <= i < dp || dp + 40 <= i < p0.len() implies #[trigger] p4[i]
                == p0[i] by {
                assert(p4[i] == p3[i] && p3[i] == p0[i]);
            }
            assert forall|q: int| q != leaf implies #[trigger] same_page(i0, i4, lay.ps(), q) by {
                assert(same_page(i0, i3, lay.ps(), q));
                assert(same_page(i3, i4, lay.ps(), q));
            }
            assert forall|q: int| in_img(i0, lay.ps(), q) == #[trigger] in_img(i4, lay.ps(), q) by {
                assert(in_img(i0, lay.ps(), q) == in_img(i3, lay.ps(), q));
            }
        }
    }
}

} // verus!
