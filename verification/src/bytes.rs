//! The image of the file as a row of pages, and numbers in it: little-endian, at a
//! place within a page.
use crate::error::RmdbError;
use vstd::prelude::*;

verus! {

/// How many bytes page number `p` begins behind the start of the file.
pub open spec fn base_of(ps: int, p: int) -> int {
    p * ps
}

/// Whether page `p` lies in the image.
pub closed spec fn in_img(img: Seq<u8>, ps: int, p: int) -> bool {
    0 <= p && base_of(ps, p + 1) <= img.len()
}

/// The bytes of page `p`.
pub closed spec fn page(img: Seq<u8>, ps: int, p: int) -> Seq<u8> {
    img.subrange(base_of(ps, p), base_of(ps, p) + ps)
}

/// The `len` bytes from the start of page `p` on, over as many pages as they take.
pub closed spec fn run(img: Seq<u8>, ps: int, p: int, len: int) -> Seq<u8> {
    img.subrange(base_of(ps, p), base_of(ps, p) + len)
}

/// `b` with the bytes `s` written over it at `pos`.
pub open spec fn splice(b: Seq<u8>, pos: int, s: Seq<u8>) -> Seq<u8> {
    Seq::new(
        b.len(),
        |i: int|
            if pos <= i < pos + s.len() {
                s[i - pos]
            } else {
                b[i]
            },
    )
}

/// The two bytes at `pos` as a number.
pub open spec fn u16_at(b: Seq<u8>, pos: int) -> int {
    b[pos] + 256 * b[pos + 1]
}

/// The four bytes at `pos` as a number.
pub open spec fn u32_at(b: Seq<u8>, pos: int) -> int {
    b[pos] + 256 * b[pos + 1] + 65536 * b[pos + 2] + 16777216 * b[pos + 3]
}

/// A number as two bytes.
pub open spec fn le16(v: u16) -> Seq<u8> {
    seq![(v % 256) as u8, (v / 256) as u8]
}

/// A number as four bytes.
pub open spec fn le32(v: u32) -> Seq<u8> {
    seq![
        (v % 256) as u8,
        (v / 256 % 256) as u8,
        (v / 65536 % 256) as u8,
        (v / 16777216) as u8,
    ]
}

/// A file is a row of pages of the same size: page `p` begins `p` times that size behind the
/// start of the file, and so does what goes over more than one page.
pub proof fn law_pages(img: Seq<u8>, ps: int, p: int, len: int)
    ensures
        in_img(img, ps, p) <==> 0 <= p && (p + 1) * ps <= img.len(),
        page(img, ps, p) == img.subrange(p * ps, p * ps + ps),
        run(img, ps, p, len) == img.subrange(p * ps, p * ps + len),
{
}

/// Whether two images have the same page `p`.
pub open spec fn same_page(a: Seq<u8>, b: Seq<u8>, ps: int, p: int) -> bool {
    in_img(a, ps, p) ==> in_img(b, ps, p) && page(b, ps, p) == page(a, ps, p)
}

/// A number that was written is read back.
pub proof fn lemma_le16(b: Seq<u8>, pos: int, v: u16)
    requires
        0 <= pos,
        pos + 2 <= b.len(),
    ensures
        u16_at(splice(b, pos, le16(v)), pos) == v,
{
}

/// A number that was written is read back.
pub proof fn lemma_le32(b: Seq<u8>, pos: int, v: u32)
    requires
        0 <= pos,
        pos + 4 <= b.len(),
    ensures
        u32_at(splice(b, pos, le32(v)), pos) == v,
{
    let x = splice(b, pos, le32(v));
    assert(x[pos] == (v % 256) as u8);
    assert(x[pos + 1] == (v / 256 % 256) as u8);
    assert(x[pos + 2] == (v / 65536 % 256) as u8);
    assert(x[pos + 3] == (v / 16777216) as u8);
    let a: int = v as int / 256;
    assert(v == 256 * a + v % 256);
    let c: int = a / 256;
    assert(c == v as int / 65536) by (nonlinear_arith)
        requires
            a == v as int / 256,
            c == a / 256,
    ;
    let d: int = c / 256;
    assert(d == v as int / 16777216) by (nonlinear_arith)
        requires
            c == v as int / 65536,
            d == c / 256,
    ;
}

/// Where the pages of an image begin and end.
proof fn lemma_base(ps: int, p: int, q: int)
    requires
        ps >= 0,
        p <= q,
    ensures
        base_of(ps, p) <= base_of(ps, q),
        base_of(ps, p + 1) == base_of(ps, p) + ps,
        0 <= p ==> 0 <= base_of(ps, p),
{
    assert(p * ps <= q * ps) by (nonlinear_arith)
        requires
            p <= q,
            ps >= 0,
    ;
    assert((p + 1) * ps == p * ps + ps) by (nonlinear_arith);
    if 0 <= p {
        assert(0 <= p * ps) by (nonlinear_arith)
            requires
                0 <= p,
                ps >= 0,
        ;
    }
}

/// A page has the size of a page.
pub proof fn lemma_page_len(img: Seq<u8>, ps: int, p: int)
    requires
        in_img(img, ps, p),
        ps >= 0,
    ensures
        page(img, ps, p).len() == ps,
{
    lemma_base(ps, p, p);
}

/// The first `n` pages are in an image that has room for them.
pub proof fn lemma_in_img(img: Seq<u8>, ps: int, n: int, p: int)
    requires
        n * ps <= img.len(),
        0 <= p < n,
        ps >= 0,
    ensures
        in_img(img, ps, p),
{
    lemma_base(ps, p + 1, n);
}

/// A page of an image has a smaller number than the image has pages.
pub proof fn lemma_img_pages(img: Seq<u8>, ps: int, p: int)
    requires
        in_img(img, ps, p),
        ps >= 1,
    ensures
        p < img.len() as int / ps,
{
    assert(p + 1 <= img.len() as int / ps) by (nonlinear_arith)
        requires
            (p + 1) * ps <= img.len(),
            ps >= 1,
    ;
}

/// An image that grew has the pages that it had.
pub proof fn lemma_extended(a: Seq<u8>, b: Seq<u8>, ps: int, p: int)
    requires
        a.len() <= b.len(),
        b.subrange(0, a.len() as int) == a,
        ps >= 0,
    ensures
        same_page(a, b, ps, p),
{
    if in_img(a, ps, p) {
        lemma_base(ps, p, p);
        assert(page(b, ps, p) =~= page(a, ps, p)) by {
            assert forall|i: int| 0 <= i < ps implies page(b, ps, p)[i] == page(a, ps, p)[i] by {
                assert(b.subrange(0, a.len() as int)[base_of(ps, p) + i] == b[base_of(ps, p) + i]);
            }
        }
    }
}

/// Bytes over several pages are the same where the pages are.
pub proof fn lemma_run_same(a: Seq<u8>, b: Seq<u8>, ps: int, p: int, count: int, len: int)
    requires
        ps >= 1,
        0 <= p,
        0 <= len <= count * ps,
        count >= 1,
        in_img(a, ps, p + count - 1),
        forall|q: int| p <= q < p + count ==> #[trigger] same_page(a, b, ps, q),
    ensures
        run(b, ps, p, len) == run(a, ps, p, len),
{
    let s = base_of(ps, p);
    lemma_base(ps, p, p + count);
    assert((p + count) * ps == p * ps + count * ps) by (nonlinear_arith);
    assert(same_page(a, b, ps, p + count - 1));
    assert(base_of(ps, p + count) <= a.len());
    assert(base_of(ps, p + count) <= b.len());
    assert forall|i: int| 0 <= i < len implies run(b, ps, p, len)[i] == run(a, ps, p, len)[i] by {
        let k = i / ps;
        assert(0 <= k < count && k * ps <= i < k * ps + ps) by (nonlinear_arith)
            requires
                0 <= i < count * ps,
                ps >= 1,
                k == i / ps,
        ;
        let q = p + k;
        assert(same_page(a, b, ps, q));
        lemma_base(ps, q + 1, p + count);
        lemma_base(ps, q, q);
        assert((p + k) * ps == p * ps + k * ps) by (nonlinear_arith);
        assert(page(a, ps, q)[i - k * ps] == a[s + i]);
        assert(page(b, ps, q)[i - k * ps] == b[s + i]);
    }
    assert(run(b, ps, p, len) =~= run(a, ps, p, len));
}

/// Bytes over several pages are the same where only the end of the last page, behind
/// them, is another.
pub proof fn lemma_run_kept(a: Seq<u8>, b: Seq<u8>, ps: int, p: int, count: int, len: int, pl: int)
    requires
        ps >= 1,
        0 <= p,
        count >= 1,
        0 <= pl <= ps,
        0 <= len <= (count - 1) * ps + pl,
        in_img(a, ps, p + count - 1),
        in_img(b, ps, p + count - 1),
        forall|q: int| p <= q < p + count - 1 ==> #[trigger] same_page(a, b, ps, q),
        page(b, ps, p + count - 1).subrange(0, pl) == page(a, ps, p + count - 1).subrange(0, pl),
    ensures
        run(b, ps, p, len) == run(a, ps, p, len),
{
    let s = base_of(ps, p);
    let last = p + count - 1;
    lemma_base(ps, p, p + count);
    assert((p + count) * ps == p * ps + count * ps) by (nonlinear_arith);
    assert((count - 1) * ps + ps == count * ps) by (nonlinear_arith);
    assert forall|i: int| 0 <= i < len implies run(b, ps, p, len)[i] == run(a, ps, p, len)[i] by {
        let k = i / ps;
        assert(0 <= k < count && k * ps <= i < k * ps + ps) by (nonlinear_arith)
            requires
                0 <= i < count * ps,
                ps >= 1,
                k == i / ps,
        ;
        let q = p + k;
        lemma_base(ps, q + 1, p + count);
        lemma_base(ps, q, q);
        assert((p + k) * ps == p * ps + k * ps) by (nonlinear_arith);
        assert(page(a, ps, q)[i - k * ps] == a[s + i]);
        assert(page(b, ps, q)[i - k * ps] == b[s + i]);
        if q < last {
            assert(same_page(a, b, ps, q));
        } else {
            assert(k == count - 1);
            let j = i - k * ps;
            assert(page(b, ps, last).subrange(0, pl)[j] == page(b, ps, last)[j]);
            assert(page(a, ps, last).subrange(0, pl)[j] == page(a, ps, last)[j]);
        }
    }
    assert(run(b, ps, p, len) =~= run(a, ps, p, len));
}

/// The first bytes of a run are those of its first page.
pub proof fn lemma_run_head(img: Seq<u8>, ps: int, p: int, len: int)
    requires
        ps >= 1,
        0 <= len,
        in_img(img, ps, p),
        base_of(ps, p) + len <= img.len(),
    ensures
        forall|i: int|
            0 <= i < len && i < ps ==> #[trigger] run(img, ps, p, len)[i] == page(img, ps, p)[i],
        run(img, ps, p, len).len() == len,
{
    lemma_base(ps, p, p);
}

/// Bytes over several pages of an image fit in it.
pub proof fn lemma_run_fits(img: Seq<u8>, ps: int, p: int, count: int, len: int)
    requires
        ps >= 1,
        0 <= p,
        count >= 1,
        0 <= len <= count * ps,
        in_img(img, ps, p + count - 1),
    ensures
        base_of(ps, p) + len <= img.len(),
{
    assert((p + count) * ps == p * ps + count * ps) by (nonlinear_arith);
}

/// Page 0 is how the image begins.
pub proof fn lemma_page_zero(img: Seq<u8>, ps: int)
    requires
        in_img(img, ps, 0),
        ps >= 1,
    ensures
        ps <= img.len(),
        forall|i: int| 0 <= i < ps ==> #[trigger] page(img, ps, 0)[i] == img[i],
{
    assert(base_of(ps, 1) == ps);
    assert(base_of(ps, 0) == 0);
}

/// How many pages `size` bytes take.
pub fn size_to_pages(pagesize: usize, size: usize) -> (r: u32)
    requires
        pagesize >= 1,
        size + pagesize <= usize::MAX,
        (size + pagesize - 1) / pagesize as int <= u32::MAX,
    ensures
        r == (size + pagesize - 1) / pagesize as int,
{
    ((size + pagesize - 1) / pagesize) as u32
}

/// Where `size` bytes at `offset` of page `index` begin and end in the file, if they are
/// within a page.
pub fn page_range(pagesize: usize, index: u32, offset: usize, size: usize) -> (r: Result<
    (usize, usize),
    RmdbError,
>)
    requires
        offset + size <= usize::MAX,
        (index + 1) * pagesize <= usize::MAX,
    ensures
        match r {
            Ok((start, end)) => offset + size <= pagesize && start == base_of(
                pagesize as int,
                index as int,
            ) + offset && end == start + size,
            Err(e) => offset + size > pagesize && e is InvalidIndexSize,
        },
        r is Ok <==> offset + size <= pagesize,
        r matches Ok((start, end)) ==> start == index * pagesize + offset && end == index * pagesize
            + offset + size,
{
    if offset + size > pagesize {
        return Err(RmdbError::InvalidIndexSize);
    }
    assert(0 <= index * pagesize && (index + 1) * pagesize == index * pagesize + pagesize)
        by (nonlinear_arith);
    let base: usize = (index as usize) * pagesize;
    Ok((base + offset, base + offset + size))
}

/// Whether page `p` lies in the image.
pub(crate) fn page_in(img: &[u8], ps: usize, p: u32) -> (r: bool)
    requires
        ps >= 1,
    ensures
        r == in_img(img@, ps as int, p as int),
{
    let n: usize = img.len() / ps;
    proof {
        assert((p < n) == ((p + 1) * ps <= img.len())) by (nonlinear_arith)
            requires
                n == img.len() as int / ps as int,
                ps >= 1,
        ;
    }
    (p as usize) < n
}

/// The bytes `from..to` of page `p`.
pub(crate) fn page_bytes<'a>(img: &'a [u8], ps: usize, p: u32, from: usize, to: usize) -> (r:
    &'a [u8])
    requires
        in_img(img@, ps as int, p as int),
        from <= to <= ps,
    ensures
        r@ == page(img@, ps as int, p as int).subrange(from as int, to as int),
{
    let _len: usize = img.len();
    proof {
        lemma_base(ps as int, p as int, p as int);
    }
    match page_range(ps, p, from, to - from) {
        Ok((start, end)) => {
            let r = vstd::slice::slice_subrange(img, start, end);
            assert(r@ =~= page(img@, ps as int, p as int).subrange(from as int, to as int));
            r
        },
        Err(_) => img,
    }
}

/// The two bytes at `pos` of page `p` as a number.
pub(crate) fn get_u16(img: &[u8], ps: usize, p: u32, pos: usize) -> (r: u16)
    requires
        in_img(img@, ps as int, p as int),
        pos + 2 <= ps,
    ensures
        r == u16_at(page(img@, ps as int, p as int), pos as int),
{
    let _len: usize = img.len();
    proof {
        lemma_base(ps as int, p as int, p as int);
    }
    let i: usize = p as usize * ps + pos;
    img[i] as u16 + 256 * (img[i + 1] as u16)
}

/// The four bytes at `pos` of page `p` as a number.
pub(crate) fn get_u32(img: &[u8], ps: usize, p: u32, pos: usize) -> (r: u32)
    requires
        in_img(img@, ps as int, p as int),
        pos + 4 <= ps,
    ensures
        r == u32_at(page(img@, ps as int, p as int), pos as int),
{
    let _len: usize = img.len();
    proof {
        lemma_base(ps as int, p as int, p as int);
    }
    let i: usize = p as usize * ps + pos;
    img[i] as u32 + 256 * (img[i + 1] as u32) + 65536 * (img[i + 2] as u32) + 16777216 * (img[i
        + 3] as u32)
}

/// The `len` bytes from the start of page `p` on, if the image has that many.
pub(crate) fn run_bytes<'a>(img: &'a [u8], ps: usize, p: u32, len: usize) -> (r: Option<
    &'a [u8],
>)
    requires
        ps >= 1,
    ensures
        match r {
            Some(s) => s@ == run(img@, ps as int, p as int, len as int) && s.len() == len
                && base_of(ps as int, p as int) + len <= img.len(),
            None => base_of(ps as int, p as int) + len > img.len(),
        },
{
    if p as usize > img.len() / ps {
        proof {
            let (n, l) = (p as int, img.len() as int);
            assert(n * ps > l) by (nonlinear_arith)
                requires
                    n > l / ps as int,
                    ps >= 1,
                    l >= 0,
            ;
        }
        return None;
    }
    proof {
        let (n, l) = (p as int, img.len() as int);
        assert(0 <= n * ps <= l) by (nonlinear_arith)
            requires
                0 <= n <= l / ps as int,
                ps >= 1,
                l >= 0,
        ;
    }
    let start: usize = p as usize * ps;
    if len > img.len() - start {
        return None;
    }
    Some(vstd::slice::slice_subrange(img, start, start + len))
}

/// Writes the bytes `s` over the image from `at` on.
fn write_at(img: &mut Vec<u8>, at: usize, s: &[u8])
    requires
        at + s.len() <= old(img).len(),
    ensures
        final(img)@ == splice(old(img)@, at as int, s@),
{
    let ghost b = img@;
    let mut i: usize = 0;
    while i < s.len()
        invariant
            i <= s.len(),
            at + s.len() <= img.len(),
            img.len() == b.len(),
            forall|j: int|
                0 <= j < b.len() ==> #[trigger] img[j] == (if at <= j < at + i {
                    s[j - at]
                } else {
                    b[j]
                }),
        decreases s.len() - i,
    {
        img.set(at + i, s[i]);
        i = i + 1;
    }
    assert(img@ =~= splice(b, at as int, s@));
}

/// Writes a number of two bytes over `buf` at `pos`.
pub(crate) fn put_u16(buf: &mut Vec<u8>, pos: usize, v: u16)
    requires
        pos + 2 <= old(buf).len(),
    ensures
        final(buf)@ == splice(old(buf)@, pos as int, le16(v)),
{
    let s: [u8; 2] = [(v % 256) as u8, (v / 256) as u8];
    assert(s@ =~= le16(v));
    write_at(buf, pos, s.as_slice());
}

/// Writes a number of four bytes over `buf` at `pos`.
pub(crate) fn put_u32(buf: &mut Vec<u8>, pos: usize, v: u32)
    requires
        pos + 4 <= old(buf).len(),
    ensures
        final(buf)@ == splice(old(buf)@, pos as int, le32(v)),
{
    let s: [u8; 4] = [
        (v % 256) as u8,
        (v / 256 % 256) as u8,
        (v / 65536 % 256) as u8,
        (v / 16777216) as u8,
    ];
    assert(s@ =~= le32(v));
    write_at(buf, pos, s.as_slice());
}

/// The four bytes at `pos` of `buf` as a number.
pub(crate) fn word_at(buf: &[u8], pos: usize) -> (r: u32)
    requires
        pos + 4 <= buf.len(),
    ensures
        r == u32_at(buf@, pos as int),
{
    buf[pos] as u32 + 256 * (buf[pos + 1] as u32) + 65536 * (buf[pos + 2] as u32) + 16777216 * (
    buf[pos + 3] as u32)
}

/// What a write within pages `p` to `p + count` leaves alone.
proof fn lemma_written(b: Seq<u8>, ps: int, p: int, count: int, at: int, s: Seq<u8>)
    requires
        ps >= 1,
        base_of(ps, p) <= at,
        at + s.len() <= base_of(ps, p + count),
        0 <= p,
        0 <= count,
    ensures
        forall|q: int|
            !(p <= q < p + count) ==> #[trigger] same_page(b, splice(b, at, s), ps, q),
        forall|q: int| in_img(b, ps, q) == #[trigger] in_img(splice(b, at, s), ps, q),
{
    let n = splice(b, at, s);
    assert forall|q: int| !(p <= q < p + count) implies #[trigger] same_page(b, n, ps, q) by {
        if in_img(b, ps, q) {
            if q < p {
                lemma_base(ps, q + 1, p);
            } else {
                lemma_base(ps, p + count, q);
            }
            lemma_base(ps, q, q);
            assert(page(n, ps, q) =~= page(b, ps, q));
        }
    }
}

/// Writes the bytes `s` over page `p` from `pos` on.
pub(crate) fn set_bytes(img: &mut Vec<u8>, ps: usize, p: u32, pos: usize, s: &[u8])
    requires
        ps >= 1,
        in_img(old(img)@, ps as int, p as int),
        pos + s.len() <= ps,
    ensures
        final(img).len() == old(img).len(),
        page(final(img)@, ps as int, p as int) == splice(
            page(old(img)@, ps as int, p as int),
            pos as int,
            s@,
        ),
        forall|q: int| q != p ==> #[trigger] same_page(old(img)@, final(img)@, ps as int, q),
        forall|q: int|
            in_img(old(img)@, ps as int, q) == #[trigger] in_img(final(img)@, ps as int, q),
{
    let _len: usize = img.len();
    let ghost b = img@;
    proof {
        lemma_base(ps as int, p as int, p as int);
    }
    let at: usize = p as usize * ps + pos;
    write_at(img, at, s);
    proof {
        lemma_written(b, ps as int, p as int, 1, at as int, s@);
        assert(page(img@, ps as int, p as int) =~= splice(
            page(b, ps as int, p as int),
            pos as int,
            s@,
        ));
    }
}

/// Writes a number of two bytes over page `p` at `pos`.
pub(crate) fn set_u16(img: &mut Vec<u8>, ps: usize, p: u32, pos: usize, v: u16)
    requires
        ps >= 1,
        in_img(old(img)@, ps as int, p as int),
        pos + 2 <= ps,
    ensures
        final(img).len() == old(img).len(),
        page(final(img)@, ps as int, p as int) == splice(
            page(old(img)@, ps as int, p as int),
            pos as int,
            le16(v),
        ),
        forall|q: int| q != p ==> #[trigger] same_page(old(img)@, final(img)@, ps as int, q),
        forall|q: int|
            in_img(old(img)@, ps as int, q) == #[trigger] in_img(final(img)@, ps as int, q),
{
    let s: [u8; 2] = [(v % 256) as u8, (v / 256) as u8];
    assert(s@ =~= le16(v));
    set_bytes(img, ps, p, pos, s.as_slice());
}

/// Writes a number of four bytes over page `p` at `pos`.
pub(crate) fn set_u32(img: &mut Vec<u8>, ps: usize, p: u32, pos: usize, v: u32)
    requires
        ps >= 1,
        in_img(old(img)@, ps as int, p as int),
        pos + 4 <= ps,
    ensures
        final(img).len() == old(img).len(),
        page(final(img)@, ps as int, p as int) == splice(
            page(old(img)@, ps as int, p as int),
            pos as int,
            le32(v),
        ),
        forall|q: int| q != p ==> #[trigger] same_page(old(img)@, final(img)@, ps as int, q),
        forall|q: int|
            in_img(old(img)@, ps as int, q) == #[trigger] in_img(final(img)@, ps as int, q),
{
    let s: [u8; 4] = [
        (v % 256) as u8,
        (v / 256 % 256) as u8,
        (v / 65536 % 256) as u8,
        (v / 16777216) as u8,
    ];
    assert(s@ =~= le32(v));
    set_bytes(img, ps, p, pos, s.as_slice());
}

/// Writes the bytes `s` over the image from the start of page `p` on, over `count` pages
/// at most.
pub(crate) fn set_run(img: &mut Vec<u8>, ps: usize, p: u32, s: &[u8], Ghost(count): Ghost<int>)
    requires
        ps >= 1,
        0 < count,
        in_img(old(img)@, ps as int, p + count - 1),
        s.len() <= count * ps,
    ensures
        final(img).len() == old(img).len(),
        run(final(img)@, ps as int, p as int, s.len() as int) == s@,
        forall|q: int|
            !(p <= q < p + count) ==> #[trigger] same_page(old(img)@, final(img)@, ps as int, q),
        forall|q: int|
            in_img(old(img)@, ps as int, q) == #[trigger] in_img(final(img)@, ps as int, q),
{
    let _len: usize = img.len();
    let ghost b = img@;
    proof {
        lemma_base(ps as int, p as int, p + count);
        assert((p + count) * ps == p * ps + count * ps) by (nonlinear_arith);
    }
    let at: usize = p as usize * ps;
    write_at(img, at, s);
    proof {
        lemma_written(b, ps as int, p as int, count, at as int, s@);
        assert(run(img@, ps as int, p as int, s.len() as int) =~= s@);
    }
}

/// Copies page `src` over page `dst`.
pub(crate) fn page_copy(img: &mut Vec<u8>, ps: usize, src: u32, dst: u32)
    requires
        ps >= 1,
        in_img(old(img)@, ps as int, src as int),
        in_img(old(img)@, ps as int, dst as int),
    ensures
        final(img).len() == old(img).len(),
        page(final(img)@, ps as int, dst as int) == page(old(img)@, ps as int, src as int),
        forall|q: int| q != dst ==> #[trigger] same_page(old(img)@, final(img)@, ps as int, q),
        forall|q: int|
            in_img(old(img)@, ps as int, q) == #[trigger] in_img(final(img)@, ps as int, q),
{
    let ghost b = img@;
    proof {
        lemma_page_len(b, ps as int, src as int);
        lemma_page_len(b, ps as int, dst as int);
    }
    let mut buf: Vec<u8> = Vec::new();
    buf.extend_from_slice(page_bytes(img.as_slice(), ps, src, 0, ps));
    assert(buf@ =~= page(b, ps as int, src as int));
    set_bytes(img, ps, dst, 0, buf.as_slice());
    assert(splice(page(b, ps as int, dst as int), 0, buf@) =~= buf@);
}

} // verus!
