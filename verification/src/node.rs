//! The pointers of a node in its page.
use crate::bytes::{
    get_u16, get_u32, in_img, le32, lemma_le16, lemma_le32, lemma_page_len, page, same_page,
    set_u16, set_u32, splice, u16_at, u32_at,
};
use crate::layout::{topptr, Layout, NODE_FIRSTPTR, NODE_NUMPTRS, PTRSZ};
use crate::tree::{node_page, Tree};
use vstd::prelude::*;

verus! {

/// Whether `ptrs` are the pages of the trees, in their order.
pub open spec fn points_to(ptrs: Seq<u32>, kids: Seq<Tree>) -> bool {
    &&& ptrs.len() == kids.len()
    &&& forall|i: int| 0 <= i < kids.len() ==> ptrs[i] == (#[trigger] kids[i]).pg()
}

/// The pointers of the node `p`.
pub(crate) fn read_ptrs(img: &Vec<u8>, lay: Layout, p: u32) -> (r: Vec<u32>)
    requires
        lay.sane(),
        in_img(img@, lay.ps(), p as int),
        topptr(u16_at(page(img@, lay.ps(), p as int), 2)) <= lay.payload,
    ensures
        r.len() == u16_at(page(img@, lay.ps(), p as int), 2),
        forall|i: int|
            0 <= i < r.len() ==> #[trigger] r[i] == u32_at(
                page(img@, lay.ps(), p as int),
                topptr(i),
            ),
{
    let ps: usize = lay.pagesize;
    let nptrs: usize = get_u16(img.as_slice(), ps, p, NODE_NUMPTRS) as usize;
    let mut r: Vec<u32> = Vec::new();
    let mut n: usize = 0;
    while n < nptrs
        invariant
            lay.sane(),
            ps == lay.pagesize,
            in_img(img@, lay.ps(), p as int),
            n <= nptrs,
            topptr(nptrs as int) <= lay.payload,
            r.len() == n,
            forall|i: int|
                0 <= i < n ==> #[trigger] r[i] == u32_at(
                    page(img@, lay.ps(), p as int),
                    topptr(i),
                ),
        decreases nptrs - n,
    {
        let ptr: u32 = get_u32(img.as_slice(), ps, p, NODE_FIRSTPTR + n * PTRSZ);
        r.push(ptr);
        n = n + 1;
    }
    r
}

/// Writes the pointers over the node `p`, and how many they are.
pub(crate) fn write_ptrs(img: &mut Vec<u8>, lay: Layout, p: u32, ptrs: &Vec<u32>)
    requires
        lay.sane(),
        in_img(old(img)@, lay.ps(), p as int),
        topptr(ptrs.len() as int) <= lay.payload,
        ptrs.len() <= 0xffff,
    ensures
        final(img).len() == old(img).len(),
        u16_at(page(final(img)@, lay.ps(), p as int), 0) == u16_at(
            page(old(img)@, lay.ps(), p as int),
            0,
        ),
        u16_at(page(final(img)@, lay.ps(), p as int), 2) == ptrs.len(),
        forall|i: int|
            #![trigger ptrs[i]]
            0 <= i < ptrs.len() ==> u32_at(page(final(img)@, lay.ps(), p as int), topptr(i))
                == ptrs[i],
        forall|q: int| q != p ==> #[trigger] same_page(old(img)@, final(img)@, lay.ps(), q),
        forall|q: int|
            in_img(old(img)@, lay.ps(), q) == #[trigger] in_img(final(img)@, lay.ps(), q),
{
    let ps: usize = lay.pagesize;
    let ghost img0 = img@;
    let ghost pg0 = page(img@, lay.ps(), p as int);
    let ghost len = img.len();
    proof {
        lemma_page_len(img@, lay.ps(), p as int);
        lemma_le16(pg0, 2, ptrs.len() as u16);
    }
    set_u16(img, ps, p, NODE_NUMPTRS, ptrs.len() as u16);
    let mut n: usize = 0;
    while n < ptrs.len()
        invariant
            lay.sane(),
            ps == lay.pagesize,
            in_img(img@, lay.ps(), p as int),
            n <= ptrs.len(),
            topptr(ptrs.len() as int) <= lay.payload,
            img.len() == len,
            u16_at(page(img@, lay.ps(), p as int), 0) == u16_at(pg0, 0),
            u16_at(page(img@, lay.ps(), p as int), 2) == ptrs.len(),
            forall|i: int|
                #![trigger ptrs[i]]
                0 <= i < n ==> u32_at(page(img@, lay.ps(), p as int), topptr(i)) == ptrs[i],
            forall|q: int| q != p ==> #[trigger] same_page(img0, img@, lay.ps(), q),
            forall|q: int| in_img(img0, lay.ps(), q) == #[trigger] in_img(img@, lay.ps(), q),
        decreases ptrs.len() - n,
    {
        let ghost img1 = img@;
        let ghost pg1 = page(img@, lay.ps(), p as int);
        proof {
            lemma_page_len(img@, lay.ps(), p as int);
            lemma_le32(pg1, topptr(n as int), ptrs[n as int]);
        }
        set_u32(img, ps, p, NODE_FIRSTPTR + n * PTRSZ, ptrs[n]);
        proof {
            let pg2 = page(img@, lay.ps(), p as int);
            assert(pg2 == splice(pg1, topptr(n as int), le32(ptrs[n as int])));
            assert(pg2[0] == pg1[0] && pg2[1] == pg1[1] && pg2[2] == pg1[2] && pg2[3] == pg1[3]);
            assert forall|i: int| #![trigger ptrs[i]] 0 <= i < n + 1 implies u32_at(pg2, topptr(i))
                == ptrs[i] by {
                if i < n {
                    let a = topptr(i);
                    assert(pg2[a] == pg1[a] && pg2[a + 1] == pg1[a + 1] && pg2[a + 2] == pg1[a + 2]
                        && pg2[a + 3] == pg1[a + 3]);
                }
            }
            assert forall|q: int| q != p implies #[trigger] same_page(
                img0,
                img@,
                lay.ps(),
                q,
            ) by {
                assert(same_page(img0, img1, lay.ps(), q));
                assert(same_page(img1, img@, lay.ps(), q));
            }
        }
        n = n + 1;
    }
}

/// The first place of `x` among the pointers.
pub(crate) fn find_ptr(ptrs: &Vec<u32>, x: u32) -> (r: Option<usize>)
    ensures
        match r {
            Some(i) => i < ptrs.len() && ptrs[i as int] == x && forall|j: int|
                0 <= j < i ==> #[trigger] ptrs[j] != x,
            None => forall|j: int| 0 <= j < ptrs.len() ==> #[trigger] ptrs[j] != x,
        },
{
    let mut n: usize = 0;
    while n < ptrs.len()
        invariant
            n <= ptrs.len(),
            forall|j: int| 0 <= j < n ==> #[trigger] ptrs[j] != x,
        decreases ptrs.len() - n,
    {
        if ptrs[n] == x {
            return Some(n);
        }
        n = n + 1;
    }
    None
}

/// The page of a node, by its type and pointers.
pub(crate) proof fn lemma_node_page(
    pg: Seq<u8>,
    lay: Layout,
    top: bool,
    ptrs: Seq<u32>,
    kids: Seq<Tree>,
)
    requires
        points_to(ptrs, kids),
        if top {
            u16_at(pg, 0) == 0x4004
        } else {
            u16_at(pg, 0) == 0x0004 || u16_at(pg, 0) == 0x8004
        },
        u16_at(pg, 2) == ptrs.len(),
        topptr(ptrs.len() as int) <= lay.payload,
        forall|i: int|
            #![trigger ptrs[i]]
            0 <= i < ptrs.len() ==> u32_at(pg, topptr(i)) == ptrs[i],
    ensures
        node_page(pg, lay, top, kids),
{
    assert forall|i: int| #![trigger kids[i]] 0 <= i < kids.len() implies u32_at(pg, topptr(i))
        == kids[i].pg() by {
        assert(ptrs[i] == kids[i].pg());
    }
}

} // verus!
