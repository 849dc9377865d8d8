//! What holds of the parts that the tree and the lists of free pages are made of.
use crate::blocks::{among, buddy, cut_block, lemma_buddy, merged, place, run_of};
use crate::bytes::{in_img, law_pages, page};
use crate::commit::finished;
use crate::error::RmdbError;
use crate::fetch::leaf_of;
use crate::hash::sha256;
use crate::laws_size::{law_block_choice, law_payload};
use crate::layout::Layout;
use crate::path::{last_node, slot, way};
use crate::saved::page_type;
use crate::split::{left_half, right_half};
use crate::store::{first_order, source};
use crate::tree::{height, part, Tree};
use crate::txn::reads_out;
use crate::wtxn::{lemma_basics, marked, RmdbWTxn};
use vstd::arithmetic::power2::pow2;
use vstd::prelude::*;

verus! {

/// A node that is split leaves its children to two nodes, in the order that they had: the
/// first gets half of them, rounded down, and the second the others.
pub proof fn law_halves(n: Tree, l: int, r: int)
    ensures
        left_half(n, l).pg() == l,
        right_half(n, r).pg() == r,
        left_half(n, l).kids() + right_half(n, r).kids() == n.kids(),
        left_half(n, l).kids().len() <= right_half(n, r).kids().len() <= left_half(n, l).kids().len()
            + 1,
{
    assert(left_half(n, l).kids() + right_half(n, r).kids() =~= n.kids());
}

/// A page that a transaction works on has the highest bit of its type set. It is emptied
/// between its type and its hash, or is else as it was.
pub proof fn law_marked(a: Seq<u8>, b: Seq<u8>, lay: Layout, zero: bool, i: int)
    requires
        marked(a, b, lay, zero),
        4 <= i < a.len(),
    ensures
        b[0] == a[0],
        b[1] >= 128,
        b[1] as int % 128 == a[1] as int % 128,
        b[2] == a[2] && b[3] == a[3],
        b[i] == (if zero && i < lay.payload {
            0
        } else {
            a[i]
        }),
{
    let (a0, a1, b0, b1) = (a[0], a[1], b[0], b[1]);
    let (x, y) = ((a0 + 256 * a1) as u16, (b0 + 256 * b1) as u16);
    assert(y == x | 0x8000u16);
    assert(b0 == a0 && b1 >= 128 && b1 % 128 == a1 % 128) by (bit_vector)
        requires
            x == a0 + 256 * a1,
            y == b0 + 256 * b1,
            y == x | 0x8000u16,
    ;
}

/// The bytes of a page that was made final.
proof fn lemma_finished_bytes(a: Seq<u8>, b: Seq<u8>, lay: Layout, p: int, i: int)
    requires
        lay.sane(),
        in_img(a, lay.ps(), p),
        finished(a, b, lay, p),
        2 <= i < lay.payload,
    ensures
        ({
            let ps = lay.pagesize as int;
            &&& 0 <= p * ps
            &&& p * ps + ps <= b.len()
            &&& p * ps + ps <= a.len()
            &&& b[p * ps] == a[p * ps]
            &&& b[p * ps + 1] == a[p * ps + 1] % 128
            &&& b[p * ps + i] == a[p * ps + i]
            &&& lay.flags.bits % 2 == 1 ==> b.subrange(p * ps + ps - 32, p * ps + ps) == sha256(
                b.subrange(p * ps, p * ps + ps - 32),
            )
        }),
{
    let ps = lay.ps();
    law_payload(ps, lay.flags);
    law_pages(a, ps, p, 0);
    law_pages(b, ps, p, 0);
    assert(0 <= p * ps && (p + 1) * ps == p * ps + ps) by (nonlinear_arith)
        requires
            p >= 0,
            ps >= 0,
    ;
    let (x, y) = (page(a, ps, p), page(b, ps, p));
    let m = lay.payload as int;
    assert(y.subrange(2, m)[i - 2] == x.subrange(2, m)[i - 2]);
    assert(x[0] == a[p * ps] && x[1] == a[p * ps + 1] && y[0] == b[p * ps] && y[1] == b[p * ps + 1]);
    assert(x[i] == a[p * ps + i] && y[i] == b[p * ps + i]);
    let h = x[1] as int / 128;
    let low = x[0] + 256 * (x[1] % 128);
    assert(x[0] + 256 * x[1] == 0x8000 * h + low);
    assert(0 <= low < 0x8000);
    assert(y[0] + 256 * y[1] == low);
    assert(y[0] == x[0] && y[1] == x[1] % 128);
    if lay.flags.bits % 2 == 1 {
        assert(y.subrange(ps - 32, ps) =~= b.subrange(p * ps + ps - 32, p * ps + ps));
        assert(y.subrange(0, ps - 32) =~= b.subrange(p * ps, p * ps + ps - 32));
    }
}

/// A page that was made is one of the database's.
proof fn lemma_dirty_in(s: RmdbWTxn, p: int)
    requires
        s.inv(),
        s.dirty(p),
    ensures
        s.lay().sane(),
        in_img(s.img(), s.ps(), p),
{
    reveal(RmdbWTxn::inv);
    s.rmdb.wr.lemma_pages_in(s.ps(), p);
}

/// A page that a transaction made, and still needs when it is committed, keeps its bytes but
/// for the highest bit of its type, which goes, and for the hash of all of it, which comes.
pub proof fn law_commit_pages(s: RmdbWTxn, n: RmdbWTxn, p: int, i: int)
    requires
        s.inv(),
        n.committed(s),
        s.dirty(p),
        !s.deleted(p),
        2 <= i < s.rmdb.layout.payload,
    ensures
        ({
            let (a, b) = (s.rmdb.wr.mmap@, n.rmdb.wr.mmap@);
            let ps = s.rmdb.layout.pagesize as int;
            &&& 0 <= p * ps
            &&& p * ps + ps <= b.len()
            &&& p * ps + ps <= a.len()
            &&& b[p * ps] == a[p * ps]
            &&& b[p * ps + 1] == a[p * ps + 1] % 128
            &&& b[p * ps + i] == a[p * ps + i]
            &&& s.rmdb.layout.flags.bits % 2 == 1 ==> b.subrange(p * ps + ps - 32, p * ps + ps)
                == sha256(b.subrange(p * ps, p * ps + ps - 32))
        }),
{
    lemma_dirty_in(s, p);
    assert(finished(s.img(), n.img(), s.lay(), p));
    lemma_finished_bytes(s.img(), n.img(), s.lay(), p, i);
}

/// A value takes no page of its own where it finds room in the leaf, one where it finds none
/// and is no longer than a page, and else as many as its bytes fill.
pub proof fn law_value_pages(
    s: RmdbWTxn,
    n: RmdbWTxn,
    key: Seq<u8>,
    value: Seq<u8>,
    r: Result<(), RmdbError>,
)
    requires
        s.inv(),
        n.added(s, key, value, r),
        r is Ok,
    ensures
        ({
            let ps = s.rmdb.layout.pagesize as int;
            let v = value.len() as int;
            let room = ps - (key.len() as int + 3) / 4 * 4 - (if s.rmdb.layout.flags.bits % 2 == 1 {
                72int
            } else {
                8int
            });
            let count = leaf_of(n.tree@, key)->count;
            &&& v < room ==> count == 0
            &&& room <= v <= ps ==> count == 1
            &&& v > ps ==> (count - 1) * ps < v <= count * ps
        }),
{
    lemma_basics(s);
    law_payload(s.ps(), s.lay().flags);
    let (v, ps) = (value.len() as int, s.ps());
    let f = (v + ps - 1) / ps;
    assert((f - 1) * ps < v <= f * ps) by (nonlinear_arith)
        requires
            f == (v + ps - 1) / ps,
            ps >= 1,
            v >= 0,
    ;
}

/// What a search comes to that finds no node with children to go into, whatever the file
/// holds: without a root, or with a root that has no children, no key is found; a root outside
/// the file, or one that is no node, is told.
pub proof fn law_search_root(
    img: Seq<u8>,
    lay: Layout,
    root: int,
    key: Seq<u8>,
    r: Result<Vec<&[u8]>, RmdbError>,
)
    requires
        lay.sane(),
        0 <= root,
        reads_out(img, lay, root, key, r),
    ensures
        ({
            let ps = lay.pagesize as int;
            let inside = root * ps + ps <= img.len();
            let node = (img[root * ps] / 4) % 2 == 1;
            let count = img[root * ps + 2] + 256 * img[root * ps + 3];
            &&& root == 0 ==> (r matches Err(e) && e is KeyNotFound)
            &&& root > 0 && !inside ==> (r matches Err(e) && e is InvalidMetadata)
            &&& root > 0 && inside && !node ==> (r matches Err(e) && e is InvalidMetadata)
            &&& root > 0 && inside && node && count == 0 ==> (r matches Err(e)
                && e is KeyNotFound)
        }),
{
    let ps = lay.ps();
    law_pages(img, ps, root, 0);
    assert(0 <= root * ps && (root + 1) * ps == root * ps + ps) by (nonlinear_arith)
        requires
            root >= 0,
            ps >= 0,
    ;
    if root > 0 && root * ps + ps <= img.len() {
        let pg = page(img, ps, root);
        assert(pg[0] == img[root * ps] && pg[1] == img[root * ps + 1] && pg[2] == img[root * ps + 2]
            && pg[3] == img[root * ps + 3]);
        let (lo, hi) = (pg[0], pg[1]);
        let ty = page_type(img, lay, root) as u16;
        assert(ty == lo + 256 * hi);
        assert(ty & 0x0004u16 == 0x0004u16 <==> (lo / 4) % 2 == 1) by (bit_vector)
            requires
                ty == lo + 256 * hi,
        ;
        let n = img.len() as int;
        assert(n / ps >= 1) by (nonlinear_arith)
            requires
                ps <= n,
                ps >= 1,
        ;
    }
}

/// The place of a page in a sorted list is behind all that are less, and before all others.
pub proof fn law_place(s: Seq<u32>, x: int)
    requires
        forall|i: int, j: int| 0 <= i < j < s.len() ==> s[i] < s[j],
    ensures
        0 <= place(s, x) <= s.len(),
        forall|i: int| 0 <= i < place(s, x) ==> #[trigger] s[i] < x,
        forall|i: int| place(s, x) <= i < s.len() ==> #[trigger] s[i] >= x,
    decreases s.len(),
{
    if s.len() > 0 && s.last() >= x {
        law_place(s.drop_last(), x);
        assert forall|i: int| 0 <= i < place(s, x) implies #[trigger] s[i] < x by {
            assert(s.drop_last()[i] == s[i]);
        }
        assert forall|i: int| place(s, x) <= i < s.len() implies #[trigger] s[i] >= x by {
            if i < s.len() - 1 {
                assert(s.drop_last()[i] == s[i]);
            }
        }
    }
}

/// The pages of a row are one behind the other, and they are taken from the front of the last
/// block of the least order that has one and is large enough.
pub proof fn law_row(ls: Seq<Seq<u32>>, o: int, n: int, i: int)
    requires
        0 <= o,
        exists|k: int| o <= k < ls.len() && (#[trigger] ls[k]).len() > 0,
        0 <= i < n,
        source(ls, o) + n <= u32::MAX,
    ensures
        run_of(source(ls, o), n).len() == n,
        run_of(source(ls, o), n)[i] == source(ls, o) + i,
        ls[first_order(ls, o)].len() > 0,
        source(ls, o) == ls[first_order(ls, o)][ls[first_order(ls, o)].len() - 1],
        forall|k: int| o <= k < first_order(ls, o) ==> (#[trigger] ls[k]).len() == 0,
{
    law_block_choice(ls, o);
}

/// A block and its buddy lie next to each other, and the lower of the two starts at a multiple
/// of what they hold together.
pub proof fn law_buddy(b: int, o: int)
    requires
        0 <= b,
        0 <= o,
        b % pow2(o as nat) as int == 0,
    ensures
        buddy(b, o) == b + pow2(o as nat) || buddy(b, o) == b - pow2(o as nat),
        (if buddy(b, o) < b {
            buddy(b, o)
        } else {
            b
        }) % pow2((o + 1) as nat) as int == 0,
{
    lemma_buddy(b, o);
}

/// A new key goes into the node to which a search for it comes, where that has room for one
/// pointer more; the tree is then no higher. A node without room is split, and the half that
/// gets the key has half of its children, rounded up or down, and the new one. A new value for
/// a key leaves the tree as high as it is.
pub proof fn law_node_fills(
    s: RmdbWTxn,
    n: RmdbWTxn,
    key: Seq<u8>,
    value: Seq<u8>,
    r: Result<(), RmdbError>,
)
    requires
        s.inv(),
        n.added(s, key, value, r),
        r is Ok,
    ensures
        s@.dom().contains(key) ==> height(n.tree@) == height(s.tree@),
        !s@.dom().contains(key) ==> {
            let (a, b) = (last_node(s.tree@, key).kids().len(), last_node(n.tree@, key).kids().len());
            let end = s.rmdb.layout.pagesize - (if s.rmdb.layout.flags.bits % 2 == 1 {
                32int
            } else {
                0int
            });
            &&& 8 + 4 * a <= end ==> b == a + 1 && height(n.tree@) == height(s.tree@)
            &&& 8 + 4 * a > end ==> 2 * b == a + 1 || 2 * b == a + 2 || 2 * b == a + 3
        },
        height(n.tree@) <= height(s.tree@) + 1,
{
    lemma_basics(s);
    law_payload(s.ps(), s.lay().flags);
}

/// Where a node other than the root loses its only child, it is given up with it, and so on
/// upwards.
pub proof fn law_emptied_nodes(
    s: RmdbWTxn,
    n: RmdbWTxn,
    key: Seq<u8>,
    r: Result<(), RmdbError>,
    j: int,
)
    requires
        n.removed(s, key, r),
        r is Ok,
        ({
            let q = way(s.tree@, key).push(slot(s.tree@, key));
            &&& 1 <= j <= q.len()
            &&& forall|i: int| j <= i < q.len() ==> part(s.tree@, #[trigger] q.take(i)).kids().len() == 1
        }),
    ensures
        ({
            let q = way(s.tree@, key).push(slot(s.tree@, key));
            n.deleted(part(s.tree@, q.take(j)).pg()) || n.free(part(s.tree@, q.take(j)).pg())
        }),
{
    let q = way(s.tree@, key).push(slot(s.tree@, key));
    assert(q.take(q.len() as int) =~= q);
    lemma_cut_off(s, n, q, q.len() as int, j);
}

/// What is cut off above a part that is cut off.
proof fn lemma_cut_off(s: RmdbWTxn, n: RmdbWTxn, q: Seq<int>, k: int, j: int)
    requires
        1 <= j <= k <= q.len(),
        n.cut_off(s.tree@, q.take(k)),
        forall|i: int| j <= i < q.len() ==> part(s.tree@, #[trigger] q.take(i)).kids().len() == 1,
    ensures
        n.given_up(part(s.tree@, q.take(j)).pg()),
    decreases k - j,
{
    if j < k {
        assert(q.take(k).drop_last() =~= q.take(k - 1));
        assert(part(s.tree@, q.take(k - 1)).kids().len() == 1);
        lemma_cut_off(s, n, q, k - 1, j);
    }
}

/// Blocks that were given back are joined as long as they can be: the block that comes of it
/// has no buddy in the lists.
pub proof fn law_merged(ls: Seq<Seq<u32>>, b: int, o: int)
    requires
        0 <= o <= 31,
    ensures
        ({
            let (rest, start, order) = merged(ls, b, o);
            &&& o <= order <= 31
            &&& order < 31 && !among(rest[order], start) ==> !among(rest[order], buddy(start, order))
            &&& !among(ls[o], b) && !among(ls[o], buddy(b, o)) ==> rest == ls && start == b && order
                == o
        }),
    decreases 31 - o,
{
    let c = buddy(b, o);
    if o < 31 && !among(ls[o], b) && among(ls[o], c) {
        law_merged(
            cut_block(ls, o, c),
            if c < b {
                c
            } else {
                b
            },
            o + 1,
        );
    }
}

} // verus!
