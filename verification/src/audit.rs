//! Looking through an image: whether it holds a database.
use crate::blocks::{apart, covers, in_free, listed, lists_ok, order_to_size, total, RMDB_MAXORDER};
use crate::bytes::{
    base_of, get_u16, get_u32, in_img, lemma_in_img, lemma_page_len, lemma_page_zero,
    lemma_run_fits, lemma_run_head, page, page_bytes, run, u16_at, u32_at,
};
use crate::db::{database, fault, layout_of, lemma_no_fault, setup};
use crate::fetch::{leftmost, lemma_klen, nums, RmdbFetch};
use crate::flags::RmdbFlags;
use crate::freemap::{
    is_map, lists_view, map_at, map_bytes, map_page, map_pages, map_reads, map_size, read_map,
    root_of,
};
use crate::hash::sha256;
use crate::layout::{
    align, topptr, Layout, FREE_MAP, FREE_MAP_SIZE, NODE_FIRSTPTR, NODE_NUMPTRS, POS_PAGETYPE,
    PTRSZ, RMDB_P_DBPAGES, RMDB_P_FREEPAGES, RMDB_P_FREESIZE, RMDB_P_ROOT,
};
use crate::order::{lemma_lt_transitive, lt, rank, Rank};
use crate::path::{all_behind, good, lemma_depth, lemma_trail_len};
use crate::saved::{header, in_map, is_index, kept, page_type, total_pages, Base};
use crate::store::lemma_lists_wider;
use crate::txn::lemma_leftmost;
use crate::tree::{
    data_ptr, distinct, entries, entries_of, far_data, far_len, has_page, height, holds, leaf_page,
    lemma_height, lemma_holds_sub, lemma_page_cases, lemma_page_kid, lemma_page_root,
    lemma_same_entries, node_page, plays, sorted, Entry, Role, Tree,
};
use vstd::arithmetic::power2::{lemma_pow2_pos, pow2};
use vstd::prelude::*;

verus! {

/// Whether the values of a tree are in no more pages than they take.
pub open spec fn least(lay: Layout, t: Tree) -> bool
    decreases t,
{
    match t {
        Tree::Leaf { val, count, .. } => count <= 1 || (count - 1) * lay.ps() < val.len(),
        Tree::Node { kids, .. } => forall|i: int| 0 <= i < kids.len() ==> least(lay, #[trigger] kids[i]),
    }
}

/// Of the trees below a page, those with the fewest pages have only pages that any other
/// has.
proof fn lemma_least(img: Seq<u8>, lay: Layout, t: Tree, u: Tree, h: int, top: bool, p: int)
    requires
        lay.sane(),
        holds(img, lay, t, h, top),
        holds(img, lay, u, h, top),
        t.pg() == u.pg(),
        least(lay, t),
        has_page(t, p),
    ensures
        has_page(u, p),
    decreases t,
{
    let pg = page(img, lay.ps(), t.pg());
    lemma_page_root(u);
    match (t, u) {
        (
            Tree::Leaf { page, val, first, count, .. },
            Tree::Leaf { val: val2, first: first2, count: count2, .. },
        ) => {
            lemma_same_entries(img, lay, t, u, h, h, top);
            assert(entries(t)[0].1 == entries(u)[0].1);
            assert(val == val2);
            if p != page {
                assert(plays(t, p, Role::Data));
                assert(count > 0);
                assert(count2 > 0);
                assert(first == first2);
                assert(count <= count2) by {
                    if count > count2 {
                        let k = lay.ps();
                        assert(count2 * k <= (count - 1) * k) by (nonlinear_arith)
                            requires
                                count2 <= count - 1,
                                k >= 0,
                        ;
                    }
                }
                assert(plays(u, p, Role::Data));
            }
        },
        (Tree::Node { kids, .. }, Tree::Node { kids: kids2, .. }) => {
            if p != t.pg() {
                let i = lemma_page_cases(t, p);
                assert(u32_at(pg, topptr(i)) == kids[i].pg());
                assert(u32_at(pg, topptr(i)) == kids2[i].pg());
                lemma_least(img, lay, kids[i], kids2[i], h - 1, false, p);
                lemma_page_kid(u, i, p);
            }
        },
        _ => {
            assert(false);
        },
    }
}

/// Whether the tree stands below page `p`, `h` levels deep, in pages that are not marked,
/// and with keys that ascend from `lo` on.
pub open spec fn fits(
    img: Seq<u8>,
    lay: Layout,
    t: Tree,
    p: int,
    h: int,
    top: bool,
    m: Seq<bool>,
    lo: Option<Seq<u8>>,
) -> bool {
    &&& t.pg() == p
    &&& holds(img, lay, t, h, top)
    &&& distinct(t)
    &&& forall|q: int| #[trigger] has_page(t, q) ==> 1 <= q < m.len() && !m[q]
    &&& forall|q: int| #[trigger] is_index(t, q) ==> page_type(img, lay, q) != 0x8004
    &&& sorted(entries(t))
    &&& lo matches Some(k) ==> all_behind(entries(t), k)
}

/// The key of a leaf that has been met last.
pub open spec fn low(last: Option<&[u8]>) -> Option<Seq<u8>> {
    match last {
        Some(k) => Some(k@),
        None => None,
    }
}

/// The key that has been met last after the entries.
pub open spec fn after(lo: Option<Seq<u8>>, es: Seq<Entry>) -> Option<Seq<u8>> {
    if es.len() == 0 {
        lo
    } else {
        Some(es.last().0)
    }
}

/// Whether the marks are those of `a` and the pages of the tree.
pub open spec fn adds_marks(a: Seq<bool>, b: Seq<bool>, t: Tree) -> bool {
    &&& b.len() == a.len()
    &&& forall|q: int| 0 <= q < a.len() ==> #[trigger] b[q] == (a[q] || has_page(t, q))
}

/// Marks `count` pages from `first` on, if all of them can be marked and none is yet.
fn mark_run(m: &mut Vec<bool>, first: u32, count: usize) -> (r: bool)
    ensures
        r == (1 <= first && first + count <= old(m).len() && forall|q: int|
            first <= q < first + count ==> !#[trigger] old(m)[q]),
        final(m).len() == old(m).len(),
        r ==> forall|q: int|
            0 <= q < old(m).len() ==> #[trigger] final(m)[q] == (old(m)[q] || first <= q < first
                + count),
{
    let ghost m0 = m@;
    if first == 0 || first as usize > m.len() || count > m.len() - first as usize {
        return false;
    }
    let start: usize = first as usize;
    let mut i: usize = 0;
    while i < count
        invariant
            start == first,
            start + count <= m.len(),
            i <= count,
            m.len() == m0.len(),
            m0 == old(m)@,
            forall|q: int| first <= q < first + i ==> !#[trigger] m0[q],
            forall|q: int|
                0 <= q < m0.len() ==> #[trigger] m@[q] == (m0[q] || first <= q < first + i),
        decreases count - i,
    {
        if m[start + i] {
            assert(m@[start + i] == m0[start + i]);
            return false;
        }
        assert(m@[start + i] == m0[start + i]);
        m.set(start + i, true);
        i = i + 1;
    }
    true
}

/// How many pages a value in other pages takes.
fn pages_of(ps: usize, n: usize) -> (r: usize)
    requires
        ps >= 1,
        n + ps <= usize::MAX,
    ensures
        r >= 1,
        n <= r * ps,
        r == 1 || (r - 1) * ps < n,
{
    if n == 0 {
        assert(0 <= 1 * ps);
        return 1;
    }
    let r: usize = (n - 1) / ps + 1;
    proof {
        let (a, k) = (n - 1, ps as int);
        let d = a / k;
        assert(d * k <= a && a < (d + 1) * k) by (nonlinear_arith)
            requires
                d == a / k,
                k >= 1,
                a >= 0,
        ;
    }
    r
}

/// What the image holds in a page that is a leaf.
proof fn lemma_leaf_only(img: Seq<u8>, lay: Layout, u: Tree, p: int, m: Seq<bool>, lo: Option<Seq<u8>>)
    requires
        fits(img, lay, u, p, 0, false, m, lo),
        lay.sane(),
    ensures
        ({
            let pg = page(img, lay.ps(), p);
            let klen = u16_at(pg, 8);
            let kl = klen % 0x8000;
            let dp = data_ptr(kl);
            &&& u is Leaf
            &&& u16_at(pg, 0) == 8 && u16_at(pg, 2) == 1 && u16_at(pg, 4) == 8
            &&& dp + 2 <= lay.payload
            &&& u->key == pg.subrange(10, 10 + kl)
            &&& u->key.len() == kl
            &&& lo matches Some(k) ==> lt(k, u->key)
            &&& klen < 0x8000 ==> u->count == 0 && dp + 2 + u16_at(pg, dp) <= lay.payload
            &&& klen >= 0x8000 ==> {
                let n = u32_at(pg, dp);
                let first = u32_at(pg, dp + 4);
                &&& u->count > 0
                &&& u->first == first
                &&& u->val.len() == n
                &&& dp + far_len(lay) <= lay.payload
                &&& 1 <= first
                &&& base_of(lay.ps(), first) + n <= img.len()
                &&& u->val == crate::bytes::run(img, lay.ps(), first, n)
                &&& first + u->count <= m.len()
                &&& forall|q: int| first <= q < first + u->count ==> q != p && !#[trigger] m[q]
            }
        }),
{
    let pg = page(img, lay.ps(), p);
    assert(entries(u)[0].0 == u->key);
    if u->count > 0 {
        lemma_run_fits(img, lay.ps(), u->first, u->count, u->val.len() as int);
        assert(plays(u, u->first + u->count - 1, Role::Data));
        assert(has_page(u, u->first + u->count - 1));
        assert forall|q: int| u->first <= q < u->first + u->count implies q != p && !#[trigger] m[q] by {
            assert(plays(u, q, Role::Data));
            assert(has_page(u, q));
        }
    }
}

/// Looks at page `p` as a leaf. The page is marked already.
fn check_leaf<'a>(
    img: &'a [u8],
    lay: Layout,
    p: u32,
    m: &mut Vec<bool>,
    last: &mut Option<&'a [u8]>,
    Ghost(m0): Ghost<Seq<bool>>,
) -> (r: Option<Ghost<Tree>>)
    requires
        lay.ok(),
        m0.len() <= img@.len() as int / lay.ps(),
        1 <= p < m0.len(),
        !m0[p as int],
        old(m)@ == m0.update(p as int, true),
    ensures
        final(m).len() == m0.len(),
        match r {
            Some(t) => {
                &&& fits(img@, lay, t@, p as int, 0, false, m0, low(*old(last)))
                &&& least(lay, t@)
                &&& adds_marks(m0, final(m)@, t@)
                &&& low(*final(last)) == after(low(*old(last)), entries(t@))
            },
            None => forall|u: Tree| !#[trigger]
                fits(img@, lay, u, p as int, 0, false, m0, low(*old(last))),
        },
{
    let ps: usize = lay.pagesize;
    let pl: usize = lay.payload;
    let ghost i = img@;
    let ghost np = m0.len() as int;
    let ghost pg = page(i, lay.ps(), p as int);
    let ghost lo = low(*last);
    proof {
        lemma_all_in(i, lay.ps(), np, p as int);
        lemma_page_len(i, lay.ps(), p as int);
    }
    if get_u16(img, ps, p, 0) != 8 || get_u16(img, ps, p, 2) != 1 || get_u16(img, ps, p, 4) != 8 {
        proof {
            assert forall|u: Tree| !#[trigger] fits(i, lay, u, p as int, 0, false, m0, lo) by {
                if fits(i, lay, u, p as int, 0, false, m0, lo) {
                    lemma_leaf_only(i, lay, u, p as int, m0, lo);
                }
            }
        }
        return None;
    }
    let klen: u16 = get_u16(img, ps, p, 8);
    proof {
        lemma_klen(klen);
        assert forall|u: Tree| #[trigger] fits(i, lay, u, p as int, 0, false, m0, lo) implies u is Leaf
            && data_ptr((klen & 0x7fff) as int) + 2 <= pl by {
            lemma_leaf_only(i, lay, u, p as int, m0, lo);
        }
    }
    let kl: usize = (klen & 0x7fff) as usize;
    let dp: usize = align(10 + kl);
    if dp + 2 > pl {
        return None;
    }
    let key: &'a [u8] = page_bytes(img, ps, p, 10, 10 + kl);
    match *last {
        Some(k) => {
            match rank(k, key) {
                Rank::Before => {},
                _ => {
                    proof {
                        assert forall|u: Tree| !#[trigger]
                            fits(i, lay, u, p as int, 0, false, m0, lo) by {
                            if fits(i, lay, u, p as int, 0, false, m0, lo) {
                                lemma_leaf_only(i, lay, u, p as int, m0, lo);
                                crate::order::lemma_lt_apart(k@, key@);
                            }
                        }
                    }
                    return None;
                },
            }
        },
        None => {},
    }
    if klen < 0x8000 {
        let n: usize = get_u16(img, ps, p, dp) as usize;
        if dp + 2 + n > pl {
            proof {
                assert forall|u: Tree| !#[trigger] fits(i, lay, u, p as int, 0, false, m0, lo) by {
                    if fits(i, lay, u, p as int, 0, false, m0, lo) {
                        lemma_leaf_only(i, lay, u, p as int, m0, lo);
                    }
                }
            }
            return None;
        }
        let ghost t = Tree::Leaf {
            page: p as int,
            key: key@,
            val: pg.subrange(dp + 2, dp + 2 + n),
            first: 0,
            count: 0,
            right: true,
        };
        proof {
            assert(leaf_page(pg, lay, t->key, t->val, 0, 0, true));
            lemma_leaf_fits(i, lay, t, p as int, m0, lo);
            assert(adds_marks(m0, m@, t)) by {
                assert forall|q: int| 0 <= q < m0.len() implies #[trigger] m@[q] == (m0[q] || has_page(
                    t,
                    q,
                )) by {}
            }
        }
        *last = Some(key);
        return Some(Ghost(t));
    }
    let far: usize = if lay.flags.contains(RmdbFlags::PAGE_INTEGRITY) {
        40
    } else {
        8
    };
    proof {
        assert forall|u: Tree| #[trigger] fits(i, lay, u, p as int, 0, false, m0, lo) implies dp + far
            <= pl by {
            lemma_leaf_only(i, lay, u, p as int, m0, lo);
        }
    }
    if dp + far > pl {
        return None;
    }
    let n: usize = get_u32(img, ps, p, dp) as usize;
    let first: u32 = get_u32(img, ps, p, dp + 4);
    proof {
        crate::bytes::lemma_img_pages(i, lay.ps(), p as int);
        lemma_one_page(i, lay.ps(), p as int);
        assert forall|u: Tree| #[trigger] fits(i, lay, u, p as int, 0, false, m0, lo) implies n
            <= i.len() - ps by {
            lemma_leaf_only(i, lay, u, p as int, m0, lo);
            let (f, k) = (first as int, ps as int);
            assert(f * k >= k) by (nonlinear_arith)
                requires
                    f >= 1,
                    k >= 0,
            ;
        }
    }
    if n > img.len() - ps {
        return None;
    }
    let count: usize = pages_of(ps, n);
    if !mark_run(m, first, count) {
        proof {
            assert forall|u: Tree| !#[trigger] fits(i, lay, u, p as int, 0, false, m0, lo) by {
                if fits(i, lay, u, p as int, 0, false, m0, lo) {
                    lemma_leaf_only(i, lay, u, p as int, m0, lo);
                    let c = u->count;
                    let k = ps as int;
                    assert(count <= c) by {
                        if count > c {
                            assert(c * k <= (count - 1) * k) by (nonlinear_arith)
                                requires
                                    c <= count - 1,
                                    k >= 0,
                            ;
                        }
                    }
                    assert forall|q: int| first <= q < first + count implies !#[trigger] m0.update(
                        p as int,
                        true,
                    )[q] by {
                        assert(!m0[q]);
                    }
                }
            }
        }
        return None;
    }
    proof {
        lemma_all_in(i, lay.ps(), np, first + count - 1);
        lemma_run_fits(i, lay.ps(), first as int, count as int, n as int);
    }
    let ghost val = run(i, lay.ps(), first as int, n as int);
    proof {
        lemma_all_in(i, lay.ps(), np, first as int);
        lemma_run_head(i, lay.ps(), first as int, n as int);
    }
    let ghost t = Tree::Leaf {
        page: p as int,
        key: key@,
        val,
        first: first as int,
        count: count as int,
        right: lay.flags.integrity() ==> pg.subrange(dp + 8, dp + 40) == sha256(val),
    };
    proof {
        assert(leaf_page(pg, lay, t->key, t->val, t->first, t->count, t->right));
        assert(far_data(i, lay, val, first as int, count as int));
        assert forall|q: int| first <= q < first + count implies q != p && !#[trigger] m0[q] by {
            assert(!m0.update(p as int, true)[q]);
        }
        lemma_leaf_fits(i, lay, t, p as int, m0, lo);
        assert(adds_marks(m0, m@, t)) by {
            assert forall|q: int| 0 <= q < m0.len() implies #[trigger] m@[q] == (m0[q] || has_page(
                t,
                q,
            )) by {}
        }
    }
    *last = Some(key);
    Some(Ghost(t))
}

/// The pages that can be marked are in the image.
proof fn lemma_all_in(img: Seq<u8>, ps: int, np: int, p: int)
    requires
        ps >= 1,
        np <= img.len() as int / ps,
        0 <= p < np,
    ensures
        in_img(img, ps, p),
{
    assert(np * ps <= img.len()) by (nonlinear_arith)
        requires
            np <= img.len() as int / ps,
            ps >= 1,
    ;
    lemma_in_img(img, ps, np, p);
}

/// An image with a page in it has at least as many bytes as a page.
proof fn lemma_one_page(img: Seq<u8>, ps: int, p: int)
    requires
        ps >= 1,
        in_img(img, ps, p),
        p >= 0,
    ensures
        ps <= img.len(),
{
    crate::bytes::lemma_img_pages(img, ps, p);
    assert(ps <= img.len()) by (nonlinear_arith)
        requires
            p < img.len() as int / ps,
            p >= 0,
            ps >= 1,
    ;
}

/// A leaf that has been read fits.
proof fn lemma_leaf_fits(img: Seq<u8>, lay: Layout, t: Tree, p: int, m: Seq<bool>, lo: Option<Seq<u8>>)
    requires
        lay.sane(),
        t is Leaf,
        t.pg() == p,
        1 <= p <= u32::MAX,
        p < m.len(),
        in_img(img, lay.ps(), p),
        leaf_page(
            page(img, lay.ps(), p),
            lay,
            t->key,
            t->val,
            t->first,
            t->count,
            t->right,
        ),
        t->count >= 0,
        t->count > 0 ==> far_data(img, lay, t->val, t->first, t->count) && t->first + t->count
            <= m.len(),
        forall|q: int| t->first <= q < t->first + t->count ==> q != p && !#[trigger] m[q],
        !m[p],
        lo matches Some(k) ==> lt(k, t->key),
    ensures
        fits(img, lay, t, p, 0, false, m, lo),
{
    assert(entries(t) =~= seq![t.entry()]);
    assert forall|q: int| #[trigger] has_page(t, q) implies 1 <= q < m.len() && !m[q] by {
        if q != p {
            assert(plays(t, q, Role::Data));
        }
    }
    assert forall|q: int| #[trigger] is_index(t, q) implies q == p by {}
}

/// Whether `t` is the node `p` as far as its children have been looked at.
spec fn begun(
    img: Seq<u8>,
    lay: Layout,
    t: Tree,
    p: int,
    h: int,
    m: Seq<bool>,
    lo: Option<Seq<u8>>,
) -> bool {
    &&& t is Node
    &&& t.pg() == p
    &&& distinct(t)
    &&& forall|q: int| #[trigger] has_page(t, q) ==> 1 <= q < m.len() && !m[q]
    &&& forall|q: int| #[trigger] is_index(t, q) ==> page_type(img, lay, q) != 0x8004
    &&& sorted(entries(t))
    &&& lo matches Some(k) ==> all_behind(entries(t), k)
    &&& least(lay, t)
    &&& forall|j: int|
        0 <= j < t.kids().len() ==> holds(img, lay, #[trigger] t.kids()[j], h - 1, false)
    &&& forall|j: int|
        #![trigger t.kids()[j]]
        0 <= j < t.kids().len() ==> u32_at(page(img, lay.ps(), p), topptr(j)) == t.kids()[j].pg()
}

/// The next child of a node that fits, fits what is left by those before it.
proof fn lemma_kid_fits(
    img: Seq<u8>,
    lay: Layout,
    u: Tree,
    t: Tree,
    p: int,
    h: int,
    top: bool,
    m0: Seq<bool>,
    m: Seq<bool>,
    lo: Option<Seq<u8>>,
)
    requires
        lay.sane(),
        fits(img, lay, u, p, h, top, m0, lo),
        u is Node,
        begun(img, lay, t, p, h, m0, lo),
        t.kids().len() < u.kids().len(),
        adds_marks(m0, m, t),
    ensures
        fits(
            img,
            lay,
            u.kids()[t.kids().len() as int],
            u32_at(page(img, lay.ps(), p), topptr(t.kids().len() as int)),
            h - 1,
            false,
            m,
            after(lo, entries(t)),
        ),
{
    let i = t.kids().len() as int;
    let us = u.kids();
    let ts = t.kids();
    let k = us[i];
    let pg = page(img, lay.ps(), p);
    assert(holds(img, lay, k, h - 1, false));
    assert(u32_at(pg, topptr(i)) == k.pg());
    assert forall|j: int| 0 <= j < i implies (#[trigger] ts[j]).pg() == us[j].pg() && holds(
        img,
        lay,
        us[j],
        h - 1,
        false,
    ) by {
        assert(u32_at(pg, topptr(j)) == us[j].pg());
    }
    assert forall|q: int| #[trigger] has_page(k, q) implies 1 <= q < m.len() && !m[q] by {
        lemma_page_kid(u, i, q);
        if has_page(t, q) {
            if q != p {
                let j = lemma_page_cases(t, q);
                assert(ts[j].pg() == us[j].pg());
                lemma_least(img, lay, ts[j], us[j], h - 1, false, q);
                assert(has_page(us[j], q));
            }
        }
    }
    assert forall|q: int| #[trigger] is_index(k, q) implies page_type(img, lay, q) != 0x8004 by {
        assert(is_index(u, q));
    }
    crate::path::lemma_kid_sorted(us, i);
    let front = us.take(i);
    assert forall|j: int| 0 <= j < ts.len() implies entries(#[trigger] ts[j]) == entries(front[j]) by {
        assert(front[j] == us[j]);
        lemma_same_entries(img, lay, ts[j], us[j], h - 1, h - 1, false);
    }
    crate::tree::lemma_same_row(ts, front);
    let es = entries(t);
    crate::tree::lemma_entries_at(us, i);
    if es.len() > 0 {
        let last = es[es.len() - 1].0;
        assert forall|j: int| 0 <= j < entries(k).len() implies lt(last, #[trigger] entries(k)[j].0) by {
            assert(entries_of(front)[es.len() - 1].0 == last);
        }
    } else if lo is Some {
        let off = entries_of(front).len();
        assert forall|j: int| 0 <= j < entries(k).len() implies lt(
            lo->0,
            #[trigger] entries(k)[j].0,
        ) by {
            assert(entries(u)[off + j] == entries(k)[j]);
        }
    }
}

/// One more child of a node has been looked at.
proof fn lemma_begun_more(
    img: Seq<u8>,
    lay: Layout,
    t: Tree,
    k: Tree,
    p: int,
    h: int,
    m0: Seq<bool>,
    m: Seq<bool>,
    m2: Seq<bool>,
    lo: Option<Seq<u8>>,
)
    requires
        lay.sane(),
        begun(img, lay, t, p, h, m0, lo),
        adds_marks(m0, m, t),
        fits(
            img,
            lay,
            k,
            u32_at(page(img, lay.ps(), p), topptr(t.kids().len() as int)),
            h - 1,
            false,
            m,
            after(lo, entries(t)),
        ),
        least(lay, k),
        adds_marks(m, m2, k),
    ensures
        ({
            let n = Tree::Node { page: p, kids: t.kids().push(k) };
            &&& begun(img, lay, n, p, h, m0, lo)
            &&& adds_marks(m0, m2, n)
            &&& after(after(lo, entries(t)), entries(k)) == after(lo, entries(n))
        }),
{
    let ts = t.kids();
    let i = ts.len() as int;
    let n = Tree::Node { page: p, kids: ts.push(k) };
    let ns = n.kids();
    assert forall|q: int| #[trigger] has_page(k, q) implies !has_page(t, q) by {
        if has_page(t, q) {
            assert(m[q] == (m0[q] || has_page(t, q)));
        }
    }
    crate::insert::lemma_child_insert(t, i, k);
    assert(ts.insert(i, k) =~= ns);
    assert(ts.take(i) =~= ts);
    assert(ts.skip(i) =~= Seq::empty());
    assert(entries(n) =~= entries(t) + entries(k));
    assert forall|q: int| #[trigger] has_page(n, q) implies 1 <= q < m0.len() && !m0[q] by {
        if has_page(k, q) {
            assert(m[q] == (m0[q] || has_page(t, q)));
        }
    }
    assert forall|q: int| #[trigger] is_index(n, q) implies page_type(img, lay, q) != 0x8004 by {
        let r = if plays(n, q, Role::Node) {
            Role::Node
        } else {
            Role::Leaf
        };
        assert(plays(n, q, r));
        if plays(t, q, r) {
            assert(is_index(t, q));
        } else {
            assert(is_index(k, q));
        }
    }
    let a = entries(t);
    let b = entries(k);
    let c = a + b;
    assert(sorted(c)) by {
        assert forall|x: int, y: int| 0 <= x < y < c.len() implies lt(
            #[trigger] c[x].0,
            #[trigger] c[y].0,
        ) by {
            if y < a.len() {
                assert(c[x] == a[x] && c[y] == a[y]);
            } else if x >= a.len() {
                assert(c[x] == b[x - a.len()] && c[y] == b[y - a.len()]);
            } else {
                let z = a[a.len() - 1].0;
                assert(c[x] == a[x] && c[y] == b[y - a.len()]);
                assert(lt(z, b[y - a.len()].0));
                if x < a.len() - 1 {
                    assert(lt(a[x].0, a[a.len() - 1].0));
                    lemma_lt_transitive(a[x].0, z, b[y - a.len()].0);
                }
            }
        }
    }
    if lo is Some {
        assert forall|x: int| 0 <= x < c.len() implies lt(lo->0, #[trigger] c[x].0) by {
            if x < a.len() {
                assert(c[x] == a[x]);
            } else {
                assert(c[x] == b[x - a.len()]);
                if a.len() > 0 {
                    let z = a[a.len() - 1].0;
                    assert(lt(lo->0, z));
                    assert(lt(z, b[x - a.len()].0));
                    lemma_lt_transitive(lo->0, z, b[x - a.len()].0);
                }
            }
        }
    }
    assert forall|j: int| 0 <= j < ns.len() implies least(lay, #[trigger] ns[j]) && holds(
        img,
        lay,
        ns[j],
        h - 1,
        false,
    ) && u32_at(page(img, lay.ps(), p), topptr(j)) == ns[j].pg() by {
        if j < i {
            assert(ns[j] == ts[j]);
        }
    }
    assert forall|q: int| 0 <= q < m0.len() implies #[trigger] m2[q] == (m0[q] || has_page(n, q)) by {
        assert(m2[q] == (m[q] || has_page(k, q)));
        assert(m[q] == (m0[q] || has_page(t, q)));
    }
}

/// Looks at the tree below page `p`.
fn check_tree<'a>(
    img: &'a [u8],
    lay: Layout,
    p: u32,
    h: usize,
    top: bool,
    m: &mut Vec<bool>,
    last: &mut Option<&'a [u8]>,
) -> (r: Option<Ghost<Tree>>)
    requires
        lay.ok(),
        old(m).len() <= img@.len() as int / lay.ps(),
        top ==> h >= 1,
    ensures
        final(m).len() == old(m).len(),
        match r {
            Some(t) => {
                &&& fits(img@, lay, t@, p as int, h as int, top, old(m)@, low(*old(last)))
                &&& least(lay, t@)
                &&& adds_marks(old(m)@, final(m)@, t@)
                &&& low(*final(last)) == after(low(*old(last)), entries(t@))
            },
            None => forall|u: Tree| !#[trigger]
                fits(img@, lay, u, p as int, h as int, top, old(m)@, low(*old(last))),
        },
    decreases h,
{
    let ps: usize = lay.pagesize;
    let pl: usize = lay.payload;
    let ghost i0 = img@;
    let ghost m0 = m@;
    let ghost np = m0.len() as int;
    let ghost lo = low(*last);
    let ghost pg = page(i0, lay.ps(), p as int);
    proof {
        assert forall|u: Tree| #[trigger] fits(i0, lay, u, p as int, h as int, top, m0, lo) implies 1
            <= p < np && !m0[p as int] && (h > 0 ==> u is Node)
            && page_type(i0, lay, p as int) != 0x8004 by {
            lemma_page_root(u);
            assert(has_page(u, p as int));
            assert(is_index(u, p as int));
        }
    }
    if p == 0 || p as usize >= m.len() || m[p as usize] {
        return None;
    }
    proof {
        lemma_all_in(i0, lay.ps(), np, p as int);
        lemma_page_len(i0, lay.ps(), p as int);
    }
    m.set(p as usize, true);
    if h == 0 {
        return check_leaf(img, lay, p, m, last, Ghost(m0));
    }
    let kind: u16 = if top {
        0x4004
    } else {
        0x0004
    };
    let n: usize = get_u16(img, ps, p, NODE_NUMPTRS) as usize;
    if get_u16(img, ps, p, POS_PAGETYPE) != kind || NODE_FIRSTPTR + n * PTRSZ > pl || (n == 0
        && !top) {
        return None;
    }
    let ghost mut t = Tree::Node { page: p as int, kids: Seq::empty() };
    proof {
        lemma_begun_first(i0, lay, t, p as int, h as int, m0, lo);
        assert(adds_marks(m0, m@, t));
        assert forall|u: Tree| #[trigger] fits(i0, lay, u, p as int, h as int, top, m0, lo) implies u
            is Node && u.kids().len() == n by {}
    }
    let mut i: usize = 0;
    while i < n
        invariant
            lay.ok(),
            ps == lay.pagesize,
            pl == lay.payload,
            i0 == img@,
            m0 == old(m)@,
            lo == low(*old(last)),
            m.len() == m0.len(),
            m0.len() == np,
            np <= i0.len() as int / lay.ps(),
            1 <= p < np,
            in_img(i0, lay.ps(), p as int),
            h >= 1,
            i <= n,
            NODE_FIRSTPTR + n * PTRSZ <= pl,
            t.kids().len() == i,
            begun(i0, lay, t, p as int, h as int, m0, lo),
            adds_marks(m0, m@, t),
            low(*last) == after(lo, entries(t)),
            forall|u: Tree| #[trigger]
                fits(i0, lay, u, p as int, h as int, top, m0, lo) ==> u is Node && u.kids().len()
                    == n,
        decreases n - i,
    {
        let ghost m1 = m@;
        let ghost lo1 = low(*last);
        let child: u32 = get_u32(img, ps, p, NODE_FIRSTPTR + i * PTRSZ);
        assert(child == u32_at(page(i0, lay.ps(), p as int), topptr(i as int)));
        match check_tree(img, lay, child, h - 1, false, m, last) {
            Some(k) => {
                proof {
                    lemma_begun_more(i0, lay, t, k@, p as int, h as int, m0, m1, m@, lo);
                    t = Tree::Node { page: p as int, kids: t.kids().push(k@) };
                }
            },
            None => {
                proof {
                    assert forall|u: Tree| !#[trigger]
                        fits(i0, lay, u, p as int, h as int, top, m0, lo) by {
                        if fits(i0, lay, u, p as int, h as int, top, m0, lo) {
                            lemma_kid_fits(i0, lay, u, t, p as int, h as int, top, m0, m1, lo);
                        }
                    }
                }
                return None;
            },
        }
        i = i + 1;
    }
    assert(node_page(pg, lay, top, t.kids()));
    Some(Ghost(t))
}

/// A node none of whose children have been looked at.
proof fn lemma_begun_first(
    img: Seq<u8>,
    lay: Layout,
    t: Tree,
    p: int,
    h: int,
    m: Seq<bool>,
    lo: Option<Seq<u8>>,
)
    requires
        t == (Tree::Node { page: p, kids: Seq::<Tree>::empty() }),
        1 <= p < m.len(),
        !m[p],
        page_type(img, lay, p) != 0x8004,
    ensures
        begun(img, lay, t, p, h, m, lo),
        entries(t).len() == 0,
        forall|q: int| #[trigger] has_page(t, q) <==> q == p,
{
    assert(t.kids().len() == 0);
    assert(entries(t).len() == 0);
}

/// Whether the block at place `i2` of order `o2` comes before place `i` of order `o`.
spec fn earlier(ls: Seq<Seq<u32>>, o: int, i: int, o2: int, i2: int) -> bool {
    listed(ls, o2, i2) && (o2 < o || (o2 == o && i2 < i))
}

/// Whether the blocks before place `i` of order `o` are as they have to be, and the marks
/// are theirs.
spec fn marked_to(ls: Seq<Seq<u32>>, o: int, i: int, m: Seq<bool>) -> bool {
    &&& forall|o2: int, i2: int| #[trigger]
        earlier(ls, o, i, o2, i2) ==> 1 <= ls[o2][i2] && ls[o2][i2] + pow2(o2 as nat) <= m.len()
    &&& forall|o2: int, i2: int, i3: int|
        #![trigger earlier(ls, o, i, o2, i2), earlier(ls, o, i, o2, i3)]
        earlier(ls, o, i, o2, i2) && earlier(ls, o, i, o2, i3) && i2 < i3 ==> ls[o2][i2]
            < ls[o2][i3]
    &&& forall|o2: int, i2: int, o3: int, i3: int|
        #![trigger earlier(ls, o, i, o2, i2), earlier(ls, o, i, o3, i3)]
        earlier(ls, o, i, o2, i2) && earlier(ls, o, i, o3, i3) && (o2 != o3 || i2 != i3) ==> apart(
            ls,
            o2,
            i2,
            o3,
            i3,
        )
    &&& forall|o2: int, i2: int, q: int|
        #![trigger earlier(ls, o, i, o2, i2), m[q]]
        earlier(ls, o, i, o2, i2) && ls[o2][i2] <= q < ls[o2][i2] + pow2(o2 as nat) ==> m[q]
    &&& forall|q: int|
        #![trigger m[q]]
        0 <= q < m.len() && m[q] ==> exists|o2: int, i2: int| #[trigger]
            earlier(ls, o, i, o2, i2) && ls[o2][i2] <= q < ls[o2][i2] + pow2(o2 as nat)
}

/// One more block has been marked.
proof fn lemma_marked_more(ls: Seq<Seq<u32>>, o: int, i: int, m: Seq<bool>, m2: Seq<bool>)
    requires
        marked_to(ls, o, i, m),
        listed(ls, o, i),
        i == 0 || ls[o][i - 1] < ls[o][i],
        1 <= ls[o][i],
        ls[o][i] + pow2(o as nat) <= m.len(),
        forall|q: int| ls[o][i] <= q < ls[o][i] + pow2(o as nat) ==> !#[trigger] m[q],
        m2.len() == m.len(),
        forall|q: int|
            0 <= q < m.len() ==> #[trigger] m2[q] == (m[q] || ls[o][i] <= q < ls[o][i] + pow2(
                o as nat,
            )),
    ensures
        marked_to(ls, o, i + 1, m2),
{
    let b = ls[o][i] as int;
    let n = pow2(o as nat) as int;
    lemma_pow2_pos(o as nat);
    assert forall|o2: int, i2: int| #[trigger] earlier(ls, o, i + 1, o2, i2) implies earlier(
        ls,
        o,
        i,
        o2,
        i2,
    ) || (o2 == o && i2 == i) by {}
    assert forall|o2: int, i2: int| #[trigger] earlier(ls, o, i, o2, i2) implies apart(
        ls,
        o,
        i,
        o2,
        i2,
    ) && apart(ls, o2, i2, o, i) by {
        let c = ls[o2][i2] as int;
        let k = pow2(o2 as nat) as int;
        lemma_pow2_pos(o2 as nat);
        if b < c + k && c < b + n {
            let q = if b < c {
                c
            } else {
                b
            };
            assert(m[q]);
            assert(!m[q]);
        }
    }
    assert forall|o2: int, i2: int| #[trigger] earlier(ls, o, i + 1, o2, i2) implies 1 <= ls[o2][i2]
        && ls[o2][i2] + pow2(o2 as nat) <= m2.len() by {
        if !(o2 == o && i2 == i) {
            assert(earlier(ls, o, i, o2, i2));
        }
    }
    assert forall|o2: int, i2: int, i3: int|
        #![trigger earlier(ls, o, i + 1, o2, i2), earlier(ls, o, i + 1, o2, i3)]
        earlier(ls, o, i + 1, o2, i2) && earlier(ls, o, i + 1, o2, i3) && i2 < i3 implies ls[o2][i2]
        < ls[o2][i3] by {
        assert(earlier(ls, o, i, o2, i2));
        if o2 == o && i3 == i {
            if i2 < i - 1 {
                assert(earlier(ls, o, i, o, i - 1));
            }
        } else {
            assert(earlier(ls, o, i, o2, i3));
        }
    }
    assert forall|o2: int, i2: int, o3: int, i3: int|
        #![trigger earlier(ls, o, i + 1, o2, i2), earlier(ls, o, i + 1, o3, i3)]
        earlier(ls, o, i + 1, o2, i2) && earlier(ls, o, i + 1, o3, i3) && (o2 != o3 || i2
            != i3) implies apart(ls, o2, i2, o3, i3) by {
        if !(o2 == o && i2 == i) {
            assert(earlier(ls, o, i, o2, i2));
        }
        if !(o3 == o && i3 == i) {
            assert(earlier(ls, o, i, o3, i3));
        }
    }
    assert forall|o2: int, i2: int, q: int|
        #![trigger earlier(ls, o, i + 1, o2, i2), m2[q]]
        earlier(ls, o, i + 1, o2, i2) && ls[o2][i2] <= q < ls[o2][i2] + pow2(o2 as nat) implies m2[q] by {
        if !(o2 == o && i2 == i) {
            assert(earlier(ls, o, i, o2, i2));
            assert(m[q]);
        }
    }
    assert forall|q: int| #![trigger m2[q]] 0 <= q < m2.len() && m2[q] implies exists|
        o2: int,
        i2: int,
    | #[trigger]
        earlier(ls, o, i + 1, o2, i2) && ls[o2][i2] <= q < ls[o2][i2] + pow2(o2 as nat) by {
        if b <= q < b + n {
            assert(earlier(ls, o, i + 1, o, i));
        } else {
            assert(m[q]);
            let (o2, i2) = choose|o2: int, i2: int| #[trigger]
                earlier(ls, o, i, o2, i2) && ls[o2][i2] <= q < ls[o2][i2] + pow2(o2 as nat);
            assert(earlier(ls, o, i + 1, o2, i2));
        }
    }
}

/// The end of one list is the start of the next.
proof fn lemma_marked_next(ls: Seq<Seq<u32>>, o: int, m: Seq<bool>)
    requires
        0 <= o < ls.len(),
        marked_to(ls, o, ls[o].len() as int, m),
    ensures
        marked_to(ls, o + 1, 0, m),
{
    let n = ls[o].len() as int;
    assert forall|o2: int, i2: int|
        #![trigger earlier(ls, o + 1, 0, o2, i2)]
        #![trigger earlier(ls, o, n, o2, i2)]
        earlier(ls, o + 1, 0, o2, i2) == earlier(ls, o, n, o2, i2) by {}
    assert forall|q: int| #![trigger m[q]] 0 <= q < m.len() && m[q] implies exists|o2: int, i2: int|
        #[trigger] earlier(ls, o + 1, 0, o2, i2) && ls[o2][i2] <= q < ls[o2][i2] + pow2(
            o2 as nat,
        ) by {
        let (o2, i2) = choose|o2: int, i2: int| #[trigger]
            earlier(ls, o, n, o2, i2) && ls[o2][i2] <= q < ls[o2][i2] + pow2(o2 as nat);
        assert(earlier(ls, o + 1, 0, o2, i2));
    }
}

/// Marks the free pages, if the lists are as they have to be.
fn mark_lists(lists: &Vec<Vec<u32>>, m: &mut Vec<bool>) -> (r: bool)
    requires
        lists.len() == RMDB_MAXORDER + 1,
        forall|q: int| 0 <= q < old(m).len() ==> !#[trigger] old(m)[q],
    ensures
        final(m).len() == old(m).len(),
        r == lists_ok(lists_view(lists@), old(m).len() as int),
        r ==> forall|q: int|
            0 <= q < old(m).len() ==> #[trigger] final(m)[q] == in_free(lists_view(lists@), q),
{
    let ghost ls = lists_view(lists@);
    let ghost lim = m.len() as int;
    let mut o: usize = 0;
    assert(marked_to(ls, 0, 0, m@));
    while o < lists.len()
        invariant
            ls == lists_view(lists@),
            lists.len() == RMDB_MAXORDER + 1,
            o <= lists.len(),
            m.len() == lim,
            lim == old(m).len(),
            marked_to(ls, o as int, 0, m@),
        decreases lists.len() - o,
    {
        proof {
            vstd::arithmetic::power2::lemma2_to64();
            crate::blocks::lemma_pow2_le(o as nat, 31);
        }
        let size: usize = order_to_size(o);
        let mut i: usize = 0;
        while i < lists[o].len()
            invariant
                ls == lists_view(lists@),
                lists.len() == RMDB_MAXORDER + 1,
                o < lists.len(),
                i <= lists[o as int].len(),
                m.len() == lim,
                lim == old(m).len(),
                size == pow2(o as nat),
                marked_to(ls, o as int, i as int, m@),
            decreases lists[o as int].len() - i,
        {
            let ghost m1 = m@;
            let block: u32 = lists[o][i];
            assert(ls[o as int] == lists[o as int]@);
            assert(listed(ls, o as int, i as int));
            if i > 0 && lists[o][i - 1] >= block {
                assert(ls[o as int][i - 1] >= ls[o as int][i as int]);
                return false;
            }
            if !mark_run(m, block, size) {
                proof {
                    if lists_ok(ls, lim) {
                        lemma_block_clash(ls, lim, o as int, i as int, m1);
                    }
                }
                return false;
            }
            proof {
                lemma_marked_more(ls, o as int, i as int, m1, m@);
            }
            i = i + 1;
        }
        proof {
            lemma_marked_next(ls, o as int, m@);
        }
        o = o + 1;
    }
    proof {
        lemma_all_marked(ls, lim, m@);
    }
    true
}

/// A block of good lists is within the limit, and none of its pages is marked for another.
proof fn lemma_block_clash(ls: Seq<Seq<u32>>, lim: int, o: int, i: int, m: Seq<bool>)
    requires
        lists_ok(ls, lim),
        marked_to(ls, o, i, m),
        listed(ls, o, i),
        m.len() == lim,
    ensures
        1 <= ls[o][i],
        ls[o][i] + pow2(o as nat) <= lim,
        forall|q: int| ls[o][i] <= q < ls[o][i] + pow2(o as nat) ==> !#[trigger] m[q],
{
    assert forall|q: int| ls[o][i] <= q < ls[o][i] + pow2(o as nat) implies !#[trigger] m[q] by {
        if m[q] {
            let (o2, i2) = choose|o2: int, i2: int| #[trigger]
                earlier(ls, o, i, o2, i2) && ls[o2][i2] <= q < ls[o2][i2] + pow2(o2 as nat);
            assert(listed(ls, o2, i2));
            assert(apart(ls, o, i, o2, i2));
        }
    }
}

/// When all blocks have been marked, the lists are good, and the marks are the free pages.
proof fn lemma_all_marked(ls: Seq<Seq<u32>>, lim: int, m: Seq<bool>)
    requires
        ls.len() == RMDB_MAXORDER + 1,
        marked_to(ls, ls.len() as int, 0, m),
        m.len() == lim,
    ensures
        lists_ok(ls, lim),
        forall|q: int| 0 <= q < lim ==> #[trigger] m[q] == in_free(ls, q),
{
    let n = ls.len() as int;
    assert forall|o: int, i: int| #[trigger] listed(ls, o, i) implies earlier(ls, n, 0, o, i) by {}
    assert forall|o: int, i: int, j: int|
        #![trigger ls[o][i], ls[o][j]]
        0 <= o < ls.len() && 0 <= i < j < ls[o].len() implies ls[o][i] < ls[o][j] by {
        assert(listed(ls, o, i) && listed(ls, o, j));
        assert(earlier(ls, n, 0, o, i) && earlier(ls, n, 0, o, j));
    }
    assert forall|o: int, i: int, o2: int, i2: int| #[trigger]
        listed(ls, o, i) && #[trigger] listed(ls, o2, i2) && (o != o2 || i != i2) implies apart(
        ls,
        o,
        i,
        o2,
        i2,
    ) by {
        assert(earlier(ls, n, 0, o, i) && earlier(ls, n, 0, o2, i2));
    }
    assert forall|q: int| 0 <= q < lim implies #[trigger] m[q] == in_free(ls, q) by {
        if m[q] {
            let (o2, i2) = choose|o2: int, i2: int| #[trigger]
                earlier(ls, n, 0, o2, i2) && ls[o2][i2] <= q < ls[o2][i2] + pow2(o2 as nat);
            assert(covers(ls, o2, i2, q));
        }
        if in_free(ls, q) {
            let (o2, i2) = choose|o2: int, i2: int| #[trigger] covers(ls, o2, i2, q);
            assert(earlier(ls, n, 0, o2, i2));
        }
    }
}

/// How many levels of nodes the tree below the root has, if there is one.
fn tree_levels(image: &Vec<u8>, lay: Layout, root: u32) -> (r: Option<usize>)
    requires
        lay.ok(),
        in_img(image@, lay.ps(), root as int),
    ensures
        r matches Some(h) ==> h >= 1 && (u16_at(page(image@, lay.ps(), root as int), 2) == 0 ==> h
            == 1),
        forall|t: Tree| #[trigger]
            good(image@, lay, root as int, t) ==> (r matches Some(h) && h == height(t)),
{
    let ghost img = image@;
    if get_u16(image.as_slice(), lay.pagesize, root, NODE_NUMPTRS) == 0 {
        return Some(1);
    }
    let fetch = RmdbFetch::new(lay, image.as_slice(), root);
    proof {
        assert forall|t: Tree| #[trigger] good(img, lay, root as int, t) implies root != 0 && {
            let c = leftmost(img, lay, root as int, img.len() as nat / lay.ps() as nat);
            c is Some && c->0.len() == height(t) + 1 && height(t) >= 1
        } by {
            let fuel = img.len() as nat / lay.ps() as nat;
            lemma_depth(img, lay, t, height(t), true);
            let q = lemma_leftmost(img, lay, t, height(t), true, fuel);
            lemma_holds_sub(img, lay, t, q, height(t), true);
            lemma_trail_len(t, q);
        }
    }
    match fetch.get_first_element() {
        Ok(chain) => {
            assert(nums(chain@).len() == chain.len());
            Some(chain.len() - 1)
        },
        Err(_) => None,
    }
}

/// Whether an image holds a database that can be written to: every page of it has the type
/// and the place that it has to have, and page 0, the root and the map have the right hashes.
pub fn is_database(image: &Vec<u8>) -> (r: bool)
    ensures
        r == exists|t: Tree, b: Base| #[trigger] database(image@, t, b),
{
    let ghost img = image@;
    proof {
        assert forall|t: Tree, b: Base| #[trigger] database(img, t, b) implies fault(img) is None by {
            lemma_no_fault(img, t, b);
        }
    }
    let lay: Layout = match setup(image) {
        Ok(lay) => lay,
        Err(_) => {
            return false;
        },
    };
    let ps: usize = lay.pagesize;
    if ps < 128 || ps > 0x40000 {
        return false;
    }
    let (lists, _free) = match read_map(image, lay) {
        Ok((lists, free)) => (lists, free),
        Err(_) => {
            return false;
        },
    };
    let ghost ls = lists_view(lists@);
    let buf: &[u8] = image.as_slice();
    let fp: u32 = get_u32(buf, ps, 0, RMDB_P_FREEPAGES);
    let fs: u32 = get_u32(buf, ps, 0, RMDB_P_FREESIZE);
    let root: u32 = get_u32(buf, ps, 0, RMDB_P_ROOT);
    let ghost b = Base { ls, fp: fp as int, fs: fs as int };
    proof {
        assert(is_map(map_bytes(img, lay, fp as int)));
        assert(fault(img) is None);
        assert forall|t: Tree, c: Base| #[trigger] database(img, t, c) implies c == b by {
            lemma_no_fault(img, t, c);
        }
    }
    let mut m: Vec<bool> = Vec::new();
    let pages: u32 = get_u32(buf, ps, 0, RMDB_P_DBPAGES);
    m.resize(pages as usize, false);
    if !mark_lists(&lists, &mut m) {
        return false;
    }
    let ghost m1 = m@;
    if fs == 0 || !mark_run(&mut m, fp, fs as usize) {
        proof {
            assert forall|t: Tree, c: Base| !#[trigger] database(img, t, c) by {
                if database(img, t, c) {
                    lemma_map_unmarked(img, t, c, m1);
                }
            }
        }
        return false;
    }
    let ghost m2 = m@;
    let size: u32 = get_u32(buf, ps, fp, FREE_MAP_SIZE);
    proof {
        let (f, k) = (fs as int, ps as int);
        assert(image.len() == img.len());
        assert(0 <= (f - 1) * k && (f - 1) * k + k <= img.len()) by (nonlinear_arith)
            requires
                1 <= f <= img.len() as int / k,
                k >= 1,
        ;
    }
    let space: usize = (fs as usize - 1) * ps + lay.payload;
    if space < FREE_MAP || size as usize > space - FREE_MAP {
        return false;
    }
    let levels: usize = match tree_levels(image, lay, root) {
        Some(levels) => levels,
        None => {
            proof {
                assert forall|t: Tree, c: Base| !#[trigger] database(img, t, c) by {
                    if database(img, t, c) {
                        assert(good(img, lay, root as int, t));
                    }
                }
            }
            return false;
        },
    };
    let mut last: Option<&[u8]> = None;
    match check_tree(buf, lay, root, levels, true, &mut m, &mut last) {
        Some(t) => {
            proof {
                assert forall|q: int| b.fp <= q < b.fp + b.fs implies !#[trigger] in_free(b.ls, q) by {
                    assert(!m1[q]);
                }
                lemma_whole(img, lay, t@, b, levels as int, m2);
            }
            true
        },
        None => {
            proof {
                assert forall|t: Tree, c: Base| !#[trigger] database(img, t, c) by {
                    if database(img, t, c) {
                        assert(good(img, lay, root as int, t));
                        lemma_tree_unmarked(img, t, c, m1, m2);
                    }
                }
            }
            false
        },
    }
}

/// The pages of a database's map are not marked as free.
proof fn lemma_map_unmarked(img: Seq<u8>, t: Tree, b: Base, m: Seq<bool>)
    requires
        database(img, t, b),
        m.len() == total_pages(img, layout_of(img)),
        forall|q: int| 0 <= q < m.len() ==> #[trigger] m[q] == in_free(b.ls, q),
    ensures
        1 <= b.fp,
        1 <= b.fs,
        b.fp + b.fs <= m.len(),
        forall|q: int| b.fp <= q < b.fp + b.fs ==> !#[trigger] m[q],
{
    assert forall|q: int| b.fp <= q < b.fp + b.fs implies !#[trigger] m[q] by {
        assert(kept(t, b, q));
    }
}

/// The tree of a database is in pages that are neither free nor the map's.
proof fn lemma_tree_unmarked(img: Seq<u8>, t: Tree, b: Base, m: Seq<bool>, m2: Seq<bool>)
    requires
        database(img, t, b),
        m.len() == total_pages(img, layout_of(img)),
        forall|q: int| 0 <= q < m.len() ==> #[trigger] m[q] == in_free(b.ls, q),
        m2.len() == m.len(),
        forall|q: int|
            0 <= q < m.len() ==> #[trigger] m2[q] == (m[q] || b.fp <= q < b.fp + b.fs),
    ensures
        fits(
            img,
            layout_of(img),
            t,
            root_of(img, layout_of(img)),
            height(t),
            true,
            m2,
            None,
        ),
{
    assert forall|q: int| #[trigger] has_page(t, q) implies 1 <= q < m2.len() && !m2[q] by {
        assert(kept(t, b, q));
        assert(!in_free(b.ls, q));
        assert(!in_map(b, q));
        assert(m2[q] == (m[q] || b.fp <= q < b.fp + b.fs));
        assert(m[q] == in_free(b.ls, q));
    }
}

/// An image in which everything was found to be right.
proof fn lemma_whole(img: Seq<u8>, lay: Layout, t: Tree, b: Base, h: int, m: Seq<bool>)
    requires
        lay == layout_of(img),
        lay.ok(),
        in_img(img, lay.ps(), 0),
        fault(img) is None,
        b.fp == map_page(img, lay),
        b.fs == map_pages(img, lay),
        map_reads(img, lay, b.ls, total(b.ls) as u32),
        lists_ok(b.ls, m.len() as int),
        m.len() == total_pages(img, lay),
        1 <= b.fp,
        1 <= b.fs,
        b.fp + b.fs <= m.len(),
        forall|q: int| 0 <= q < m.len() ==> #[trigger] m[q] == (in_free(b.ls, q) || in_map(b, q)),
        forall|q: int| b.fp <= q < b.fp + b.fs ==> !#[trigger] in_free(b.ls, q),
        FREE_MAP + map_size(img, lay, b.fp) <= (b.fs - 1) * lay.ps() + lay.payload,
        fits(img, lay, t, root_of(img, lay), h, true, m, None),
        h >= 1,
        u16_at(page(img, lay.ps(), root_of(img, lay)), 2) == 0 ==> h == 1,
    ensures
        database(img, t, b),
{
    let np = m.len() as int;
    lemma_page_zero(img, lay.ps());
    let pg = page(img, lay.ps(), 0);
    assert(pg[0] == img[0] && pg[1] == img[1] && pg[2] == img[2] && pg[3] == img[3]);
    assert(pg[4] == img[4] && pg[5] == img[5] && pg[6] == img[6] && pg[7] == img[7]);
    assert(pg[8] == img[8] && pg[9] == img[9] && pg[10] == img[10] && pg[11] == img[11]);
    assert(pg[12] == img[12] && pg[13] == img[13] && pg[14] == img[14] && pg[15] == img[15]);
    assert(pg[16] == img[16] && pg[17] == img[17] && pg[18] == img[18] && pg[19] == img[19]);
    assert(pg[20] == img[20] && pg[21] == img[21] && pg[22] == img[22] && pg[23] == img[23]);
    assert(header(img, lay));
    lemma_height(img, lay, t, h, true);
    assert(height(t) == h);
    lemma_all_in(img, lay.ps(), np, b.fp + b.fs - 1);
    assert(map_at(img, lay, b.fp, b.fs, b.ls));
    assert forall|q: int| #[trigger] kept(t, b, q) implies !in_free(b.ls, q) by {
        if in_map(b, q) {
        } else if has_page(t, q) {
            assert(m[q] == (in_free(b.ls, q) || in_map(b, q)));
        } else {
            lemma_lists_wider(b.ls, np, np);
        }
    }
    assert forall|q: int| #[trigger] has_page(t, q) implies 1 <= q < np && !in_map(b, q) by {
        assert(m[q] == (in_free(b.ls, q) || in_map(b, q)));
    }
}

} // verus!
