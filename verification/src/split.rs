//! Splitting a node that is full.
use crate::bytes::{get_u16, in_img, lemma_le16, page, same_page, set_u16};
use crate::cow::{lemma_edit, lemma_node, lemma_replaced_self, lemma_room, lemma_step_self};
use crate::error::RmdbError;
use crate::fetch::{lemma_trail_last, lemma_types, nums};
use crate::layout::{
    topptr, Layout, NODE_FIRSTPTR, NODE_NUMPTRS, PAGE_DIRTY, PAGE_NODE, PAGE_ROOT, POS_PAGETYPE,
    PTRSZ,
};
use crate::node::{find_ptr, lemma_node_page, points_to, read_ptrs, write_ptrs};
use crate::path::{lemma_kid_pages, lemma_pop, lemma_push, lemma_put_trail, lemma_trail_len, trail};
use crate::saved::{in_map, page_type};
use crate::store::room_for;
use crate::tree::{
    before, behind, bushy, distinct, entries, has_page, height, holds, leads, lemma_bushy_part,
    lemma_entries_at, lemma_entries_join, lemma_has_kid, lemma_height, lemma_holds_frame,
    lemma_page_cases, lemma_page_kid, lemma_page_root, lemma_page_sub, lemma_put_entries,
    lemma_put_path, lemma_put_shape, node_page, part, plays, put, Role, Tree,
};
use crate::wtxn::{lemma_basics, lemma_relink, lemma_step_chain, lemma_used, RmdbWTxn};
use crate::blocks::lemma_among_push;
use vstd::prelude::*;

verus! {

/// The first half of a node's children, in a node of their own.
pub open spec fn left_half(n: Tree, l: int) -> Tree {
    Tree::Node { page: l, kids: n.kids().take(n.kids().len() as int / 2) }
}

/// The second half of a node's children, in a node of their own.
pub open spec fn right_half(n: Tree, r: int) -> Tree {
    Tree::Node { page: r, kids: n.kids().skip(n.kids().len() as int / 2) }
}

/// A node with two nodes in the place of the child `k`.
pub open spec fn with_halves(par: Tree, k: int, l: int, r: int) -> Tree {
    let cur = par.kids()[k];
    Tree::Node {
        page: par.pg(),
        kids: par.kids().take(k) + seq![left_half(cur, l), right_half(cur, r)] + par.kids().skip(
            k + 1,
        ),
    }
}

/// What the halves of a node have together.
pub(crate) proof fn lemma_halves(cur: Tree, l: int, r: int)
    requires
        cur is Node,
        distinct(cur),
        cur.kids().len() >= 2,
        l != r,
        !has_page(cur, l),
        !has_page(cur, r),
    ensures
        ({
            let a = left_half(cur, l);
            let b = right_half(cur, r);
            &&& distinct(a)
            &&& distinct(b)
            &&& a.kids().len() >= 1
            &&& b.kids().len() >= 1
            &&& a.kids() + b.kids() == cur.kids()
            &&& entries(a) + entries(b) == entries(cur)
            &&& forall|p: int| #[trigger] has_page(a, p) ==> !has_page(b, p)
            &&& forall|p: int|
                #![trigger has_page(a, p)]
                #![trigger has_page(b, p)]
                has_page(a, p) || has_page(b, p) ==> p == l || p == r || (has_page(cur, p) && p
                    != cur.pg())
            &&& forall|p: int| #[trigger]
                has_page(cur, p) && p != cur.pg() ==> has_page(a, p) || has_page(b, p)
            &&& forall|p: int, k: Role| #[trigger]
                plays(a, p, k) ==> p == l && k is Node || plays(cur, p, k)
            &&& forall|p: int, k: Role| #[trigger]
                plays(b, p, k) ==> p == r && k is Node || plays(cur, p, k)
        }),
{
    let kids = cur.kids();
    let h = kids.len() as int / 2;
    let a = left_half(cur, l);
    let b = right_half(cur, r);
    assert(a.kids() + b.kids() =~= kids);
    lemma_entries_join(a.kids(), b.kids());
    assert forall|i: int| 0 <= i < a.kids().len() implies #[trigger] a.kids()[i] == kids[i] by {}
    assert forall|i: int| 0 <= i < b.kids().len() implies #[trigger] b.kids()[i] == kids[h + i] by {}
    assert forall|i: int, p: int| 0 <= i < kids.len() && #[trigger] has_page(kids[i], p) implies p
        != l && p != r && p != cur.pg() by {
        lemma_page_kid(cur, i, p);
    }
    assert(distinct(a)) by {
        lemma_some_kids(cur, l, 0, h);
        assert(kids.subrange(0, h) =~= a.kids());
    }
    assert(distinct(b)) by {
        lemma_some_kids(cur, r, h, kids.len() as int);
        assert(kids.subrange(h, kids.len() as int) =~= b.kids());
    }
    assert forall|p: int| #[trigger] has_page(a, p) implies p == l || exists|i: int|
        0 <= i < h && #[trigger] has_page(kids[i], p) by {
        if p != l {
            let i = lemma_page_cases(a, p);
            assert(has_page(kids[i], p));
        }
    }
    assert forall|p: int| #[trigger] has_page(b, p) implies p == r || exists|i: int|
        h <= i < kids.len() && #[trigger] has_page(kids[i], p) by {
        if p != r {
            let i = lemma_page_cases(b, p);
            assert(has_page(kids[h + i], p));
        }
    }
    assert forall|p: int| #[trigger] has_page(a, p) implies !has_page(b, p) by {
        if has_page(b, p) {
            if p == l {
                let j = choose|j: int| h <= j < kids.len() && #[trigger] has_page(kids[j], p);
                lemma_page_kid(cur, j, p);
            } else {
                let i = choose|i: int| 0 <= i < h && #[trigger] has_page(kids[i], p);
                if p == r {
                    lemma_page_kid(cur, i, p);
                } else {
                    let j = choose|j: int| h <= j < kids.len() && #[trigger] has_page(kids[j], p);
                    assert(!has_page(kids[j], p));
                }
            }
        }
    }
    assert forall|p: int|
        #![trigger has_page(a, p)]
        #![trigger has_page(b, p)]
        has_page(a, p) || has_page(b, p) implies p == l || p == r || (has_page(cur, p) && p
        != cur.pg()) by {
        if has_page(a, p) && p != l {
            let i = choose|i: int| 0 <= i < h && #[trigger] has_page(kids[i], p);
            lemma_page_kid(cur, i, p);
        } else if has_page(b, p) && p != r {
            let j = choose|j: int| h <= j < kids.len() && #[trigger] has_page(kids[j], p);
            lemma_page_kid(cur, j, p);
        }
    }
    assert forall|p: int| #[trigger] has_page(cur, p) && p != cur.pg() implies has_page(a, p)
        || has_page(b, p) by {
        let i = lemma_page_cases(cur, p);
        if i < h {
            assert(a.kids()[i] == kids[i]);
            lemma_page_kid(a, i, p);
        } else {
            assert(b.kids()[i - h] == kids[i]);
            lemma_page_kid(b, i - h, p);
        }
    }
    assert forall|p: int, k: Role| #[trigger] plays(a, p, k) implies p == l && k is Node || plays(
        cur,
        p,
        k,
    ) by {
        if !(p == l && k is Node) {
            let i = choose|i: int| 0 <= i < a.kids().len() && plays(#[trigger] a.kids()[i], p, k);
            lemma_has_kid(cur, i, p, k);
        }
    }
    assert forall|p: int, k: Role| #[trigger] plays(b, p, k) implies p == r && k is Node || plays(
        cur,
        p,
        k,
    ) by {
        if !(p == r && k is Node) {
            let i = choose|i: int| 0 <= i < b.kids().len() && plays(#[trigger] b.kids()[i], p, k);
            lemma_has_kid(cur, h + i, p, k);
        }
    }
}

/// Some of a node's children in a node of their own.
proof fn lemma_some_kids(n: Tree, c: int, from: int, to: int)
    requires
        n is Node,
        distinct(n),
        0 <= from <= to <= n.kids().len(),
        forall|i: int, p: int|
            0 <= i < n.kids().len() && #[trigger] has_page(n.kids()[i], p) ==> p != c,
    ensures
        distinct(Tree::Node { page: c, kids: n.kids().subrange(from, to) }),
{
    match n {
        Tree::Node { page, kids } => {
            assert(n.kids() == kids);
            let some = kids.subrange(from, to);
            assert forall|i: int| 0 <= i < some.len() implies distinct(#[trigger] some[i])
                && !has_page(some[i], c) by {
                assert(some[i] == kids[from + i]);
                if has_page(some[i], c) {
                    assert(has_page(n.kids()[from + i], c));
                }
            }
            assert forall|i: int, j: int, p: int|
                #![trigger has_page(some[i], p), has_page(some[j], p)]
                0 <= i < some.len() && 0 <= j < some.len() && i != j && has_page(
                    some[i],
                    p,
                ) implies !has_page(some[j], p) by {
                assert(some[i] == kids[from + i]);
                assert(some[j] == kids[from + j]);
                assert(has_page(kids[from + i], p));
                if has_page(kids[from + j], p) {
                    assert(!has_page(kids[from + j], p));
                }
            }
        },
        _ => {},
    }
}

/// A node with the halves of a child in its place.
pub(crate) proof fn lemma_with_halves(par: Tree, k: int, l: int, r: int)
    requires
        par is Node,
        distinct(par),
        0 <= k < par.kids().len(),
        par.kids()[k] is Node,
        par.kids()[k].kids().len() >= 2,
        l != r,
        !has_page(par, l),
        !has_page(par, r),
    ensures
        ({
            let m = with_halves(par, k, l, r);
            let cur = par.kids()[k];
            &&& m.kids().len() == par.kids().len() + 1
            &&& m.kids()[k] == left_half(cur, l)
            &&& m.kids()[k + 1] == right_half(cur, r)
            &&& forall|i: int| 0 <= i < k ==> #[trigger] m.kids()[i] == par.kids()[i]
            &&& forall|i: int|
                k + 2 <= i < m.kids().len() ==> #[trigger] m.kids()[i] == par.kids()[i - 1]
            &&& distinct(m)
            &&& entries(m) == entries(par)
            &&& forall|p: int| #[trigger]
                has_page(m, p) <==> p == l || p == r || (has_page(par, p) && p != cur.pg())
            &&& forall|p: int, x: Role| #[trigger]
                plays(m, p, x) ==> (p == l || p == r) && x is Node || plays(par, p, x)
        }),
{
    let kids = par.kids();
    let cur = kids[k];
    let a = left_half(cur, l);
    let b = right_half(cur, r);
    let m = with_halves(par, k, l, r);
    let ms = m.kids();
    assert(distinct(par.kids()[k]));
    assert(!has_page(cur, l) && !has_page(cur, r)) by {
        if has_page(cur, l) {
            lemma_page_kid(par, k, l);
        }
        if has_page(cur, r) {
            lemma_page_kid(par, k, r);
        }
    }
    lemma_halves(cur, l, r);
    assert forall|i: int| 0 <= i < k implies #[trigger] ms[i] == kids[i] by {}
    assert forall|i: int| k + 2 <= i < ms.len() implies #[trigger] ms[i] == kids[i - 1] by {}
    assert(ms[k] == a && ms[k + 1] == b);
    // which child of the old node a page of a child comes from
    assert forall|i: int, p: int| 0 <= i < ms.len() && #[trigger] has_page(ms[i], p) implies {
        let j = if i <= k {
            i
        } else {
            i - 1
        };
        &&& (i == k && p == l) || (i == k + 1 && p == r) || has_page(kids[j], p)
        &&& p != par.pg()
        &&& p != cur.pg()
    } by {
        lemma_page_root(par);
        lemma_page_root(cur);
        if i != k && i != k + 1 {
            let j = if i < k {
                i
            } else {
                i - 1
            };
            assert(ms[i] == kids[j]);
            assert(has_page(kids[j], p));
            if p == cur.pg() {
                assert(has_page(kids[k], p));
            }
        } else {
            if p == par.pg() {
                assert(has_page(cur, p));
            }
            assert(p != par.pg()) by {
                if has_page(cur, par.pg()) {
                    assert(!has_page(kids[k], par.pg()));
                }
            }
            if p == cur.pg() {
                lemma_page_kid(par, k, p);
            }
        }
    }
    assert(distinct(m)) by {
        assert forall|i: int| 0 <= i < ms.len() implies distinct(#[trigger] ms[i]) && !has_page(
            ms[i],
            m.pg(),
        ) by {
            if i < k {
                assert(distinct(kids[i]));
            } else if i >= k + 2 {
                assert(distinct(kids[i - 1]));
            }
        }
        assert forall|i: int, j: int, p: int|
            #![trigger has_page(ms[i], p), has_page(ms[j], p)]
            0 <= i < ms.len() && 0 <= j < ms.len() && i != j && has_page(ms[i], p) implies !has_page(
            ms[j],
            p,
        ) by {
            if has_page(ms[j], p) {
                let x = if i <= k {
                    i
                } else {
                    i - 1
                };
                let y = if j <= k {
                    j
                } else {
                    j - 1
                };
                if x == y {
                    // the two halves
                    assert(has_page(a, p) && has_page(b, p));
                } else if p == l || p == r {
                    if has_page(kids[x], p) {
                        lemma_page_kid(par, x, p);
                    }
                    if has_page(kids[y], p) {
                        lemma_page_kid(par, y, p);
                    }
                } else {
                    assert(has_page(kids[x], p));
                    assert(has_page(kids[y], p));
                }
            }
        }
    }
    assert(entries(m) == entries(par)) by {
        lemma_entries_at(kids, k);
        let two = seq![a, b];
        lemma_entries_join(kids.take(k), two);
        lemma_entries_join(kids.take(k) + two, kids.skip(k + 1));
        lemma_entries_join(seq![a], seq![b]);
        crate::tree::lemma_entries_one(a);
        crate::tree::lemma_entries_one(b);
        assert(two =~= seq![a] + seq![b]);
    }
    assert forall|p: int| #[trigger] has_page(m, p) <==> p == l || p == r || (has_page(par, p) && p
        != cur.pg()) by {
        if has_page(m, p) && p != m.pg() {
            let i = lemma_page_cases(m, p);
            assert(has_page(ms[i], p));
            let j = if i <= k {
                i
            } else {
                i - 1
            };
            if !(p == l || p == r) {
                lemma_page_kid(par, j, p);
            }
        }
        if p == m.pg() {
            lemma_page_root(par);
            lemma_page_root(m);
            lemma_page_root(cur);
            assert(!has_page(kids[k], par.pg()));
        }
        if p == l {
            lemma_page_root(a);
            lemma_page_kid(m, k, l);
        }
        if p == r {
            lemma_page_root(b);
            lemma_page_kid(m, k + 1, r);
        }
        if has_page(par, p) && p != cur.pg() && p != par.pg() {
            let j = lemma_page_cases(par, p);
            if j < k {
                assert(ms[j] == kids[j]);
                lemma_page_kid(m, j, p);
            } else if j > k {
                assert(ms[j + 1] == kids[j]);
                lemma_page_kid(m, j + 1, p);
            } else if has_page(a, p) {
                lemma_page_kid(m, k, p);
            } else {
                lemma_page_kid(m, k + 1, p);
            }
        }
    }
    assert forall|p: int, x: Role| #[trigger] plays(m, p, x) implies (p == l || p == r) && x is Node
        || plays(par, p, x) by {
        if !(x is Node && p == m.pg()) {
            let i = choose|i: int| 0 <= i < ms.len() && plays(#[trigger] ms[i], p, x);
            if i < k {
                lemma_has_kid(par, i, p, x);
            } else if i >= k + 2 {
                lemma_has_kid(par, i - 1, p, x);
            } else if !((p == l || p == r) && x is Node) {
                lemma_has_kid(par, k, p, x);
            }
        }
    }
}

impl RmdbWTxn {
    /// Makes a node with the pointers of a new page.
    fn make_node(&mut self, pagenum: u32, ptrs: &Vec<u32>)
        requires
            old(self).inv(),
            old(self).new_page(pagenum as int, Role::Node),
            topptr(ptrs.len() as int) <= old(self).lay().payload,
            ptrs.len() <= 0xffff,
        ensures
            final(self).inv(),
            final(self).step_but(*old(self), pagenum as int),
            final(self).same_tree(*old(self)),
            final(self).np() == old(self).np(),
            final(self).rmdb.wr.freepages == old(self).rmdb.wr.freepages,
            final(self).dirtypages == old(self).dirtypages,
            final(self).deletepages == old(self).deletepages,
            final(self).new_page(pagenum as int, Role::Node),
            page_type(final(self).img(), final(self).lay(), pagenum as int) == 0x8004,
            forall|kids: Seq<Tree>| #[trigger]
                points_to(ptrs@, kids) ==> node_page(
                    page(final(self).img(), final(self).ps(), pagenum as int),
                    final(self).lay(),
                    false,
                    kids,
                ),
            forall|p: int|
                p != pagenum ==> #[trigger] same_page(
                    old(self).img(),
                    final(self).img(),
                    final(self).ps(),
                    p,
                ),
    {
        let ghost s = *self;
        let ghost c = pagenum as int;
        let ps: usize = self.rmdb.layout.pagesize;
        let lay: Layout = self.rmdb.layout;
        proof {
            lemma_basics(s);
            s.rmdb.wr.lemma_pages_in(s.ps(), c);
            assert(0x0004u16 | 0x8000u16 == 0x8004u16) by (bit_vector);
            lemma_le16(page(s.img(), s.ps(), c), 0, 0x8004u16);
        }
        set_u16(&mut self.rmdb.wr.mmap, ps, pagenum, POS_PAGETYPE, PAGE_NODE | PAGE_DIRTY);
        let ghost img1 = self.img();
        write_ptrs(&mut self.rmdb.wr.mmap, lay, pagenum, ptrs);
        proof {
            assert forall|p: int| p != c implies #[trigger] same_page(
                s.img(),
                self.img(),
                self.ps(),
                p,
            ) by {
                assert(same_page(s.img(), img1, self.ps(), p));
                assert(same_page(img1, self.img(), self.ps(), p));
            }
            crate::wtxn::lemma_scribbled(s, *self, c);
            let pg = page(self.img(), self.ps(), c);
            assert forall|kids: Seq<Tree>| #[trigger] points_to(ptrs@, kids) implies node_page(
                pg,
                lay,
                false,
                kids,
            ) by {
                lemma_node_page(pg, lay, false, ptrs@, kids);
            }
        }
    }

    /// Makes two nodes with half of the children of `current` each.
    fn halve(&mut self, current: u32, Ghost(q): Ghost<Seq<int>>) -> (r: (u32, u32))
        requires
            old(self).inv(),
            leads(old(self).tree@, q),
            part(old(self).tree@, q) is Node,
            part(old(self).tree@, q).pg() == current,
            part(old(self).tree@, q).kids().len() >= 2,
            room_for(old(self).np(), old(self).ps(), 10),
        ensures
            final(self).inv(),
            final(self).step(*old(self)),
            final(self).same_tree(*old(self)),
            final(self).np() <= old(self).np() + 18,
            final(self).deletepages == old(self).deletepages,
            final(self).halved(part(old(self).tree@, q), r.0 as int, r.1 as int),
            !old(self).loose(r.0 as int),
            !old(self).loose(r.1 as int),
            forall|p: int|
                old(self).used(p) ==> #[trigger] same_page(
                    old(self).img(),
                    final(self).img(),
                    final(self).ps(),
                    p,
                ),
            forall|p: int|
                old(self).dirty(p) ==> #[trigger] final(self).dirty(p),
    {
        let ghost s0 = *self;
        let ghost cur = part(s0.tree@, q);
        let ghost kids = cur.kids();
        let lay: Layout = self.rmdb.layout;
        proof {
            lemma_basics(s0);
            lemma_node(s0, q);
            lemma_used(s0, current as int);
            lemma_room(s0.np(), s0.ps(), 10, s0.np(), 1);
        }
        let mut ptrs: Vec<u32> = read_ptrs(&self.rmdb.wr.mmap, lay, current);
        let ghost all = ptrs@;
        assert(points_to(all, kids));
        let left: u32 = self.get_new_page_copy(current);
        let ghost s1 = *self;
        proof {
            lemma_used(s1, current as int);
            lemma_room(s0.np(), s0.ps(), 10, s1.np(), 1);
        }
        let right: u32 = self.get_new_page_copy(current);
        let ghost s2 = *self;
        let nptrs: usize = ptrs.len();
        let lptrs: usize = nptrs / 2;
        let rest: Vec<u32> = ptrs.split_off(lptrs);
        let ghost l = left as int;
        let ghost r = right as int;
        proof {
            assert(s1.loose(l));
            assert(!s1.loose(r));
            assert(l != r);
            assert(s2.loose(l));
            assert(s2.kept(l) == s1.kept(l));
            assert(s2.new_page(l, Role::Node));
            lemma_basics(s2);
        }
        self.make_node(left, &ptrs);
        let ghost s3 = *self;
        proof {
            assert(s2.loose(r));
            assert(s3.kept(r) == s2.kept(r));
            assert(s3.new_page(r, Role::Node));
        }
        self.make_node(right, &rest);
        proof {
            let a = left_half(cur, l);
            let b = right_half(cur, r);
            assert(points_to(ptrs@, a.kids())) by {
                assert forall|i: int| 0 <= i < a.kids().len() implies ptrs@[i]
                    == (#[trigger] a.kids()[i]).pg() by {
                    assert(a.kids()[i] == kids[i]);
                }
            }
            assert(points_to(rest@, b.kids())) by {
                assert forall|i: int| 0 <= i < b.kids().len() implies rest@[i]
                    == (#[trigger] b.kids()[i]).pg() by {
                    assert(b.kids()[i] == kids[lptrs + i]);
                }
            }
            lemma_halved(s0, s1, s2, s3, *self, cur, l, r);
        }
        (left, right)
    }

    /// Whether the pages `l` and `r` are new nodes with half of the children each.
    pub open spec fn halved(self, cur: Tree, l: int, r: int) -> bool {
        &&& l != r
        &&& self.new_page(l, Role::Node)
        &&& self.new_page(r, Role::Node)
        &&& node_page(page(self.img(), self.ps(), l), self.lay(), false, left_half(cur, l).kids())
        &&& node_page(page(self.img(), self.ps(), r), self.lay(), false, right_half(cur, r).kids())
    }
}

/// The two halves are written.
proof fn lemma_halved(
    s0: RmdbWTxn,
    s1: RmdbWTxn,
    s2: RmdbWTxn,
    s3: RmdbWTxn,
    n: RmdbWTxn,
    cur: Tree,
    l: int,
    r: int,
)
    requires
        s1.step(s0),
        s1.same_tree(s0),
        s2.step(s1),
        s2.same_tree(s1),
        l != r,
        !s0.loose(l),
        !s0.used(l),
        !s1.loose(r),
        !s1.used(r),
        s1.loose(l),
        forall|p: int| p != l ==> #[trigger] same_page(s0.img(), s1.img(), s1.ps(), p),
        forall|p: int| p != r ==> #[trigger] same_page(s1.img(), s2.img(), s2.ps(), p),
        forall|p: int| p != l ==> (#[trigger] s1.dirty(p) <==> s0.dirty(p)),
        forall|p: int| p != r ==> (#[trigger] s2.dirty(p) <==> s1.dirty(p)),
        s1.dirty(l),
        s2.dirty(r),
        s3.step_but(s2, l),
        s3.same_tree(s2),
        s3.dirtypages == s2.dirtypages,
        s3.new_page(l, Role::Node),
        s3.inv(),
        forall|p: int| p != l ==> #[trigger] same_page(s2.img(), s3.img(), s3.ps(), p),
        node_page(page(s3.img(), s3.ps(), l), s3.lay(), false, left_half(cur, l).kids()),
        n.step_but(s3, r),
        n.same_tree(s3),
        n.dirtypages == s3.dirtypages,
        n.deletepages == s3.deletepages,
        n.new_page(r, Role::Node),
        forall|p: int| p != r ==> #[trigger] same_page(s3.img(), n.img(), n.ps(), p),
        node_page(page(n.img(), n.ps(), r), n.lay(), false, right_half(cur, r).kids()),
    ensures
        n.step(s0),
        n.halved(cur, l, r),
        !s0.loose(r),
        forall|p: int| s0.used(p) ==> #[trigger] same_page(s0.img(), n.img(), n.ps(), p),
        forall|p: int| s0.dirty(p) ==> #[trigger] n.dirty(p),
{
    lemma_step_chain(s0, s1, s2, 0, 0);
    lemma_step_chain(s0, s2, s3, 0, l);
    if s0.loose(r) {
        assert(s1.loose(r));
    }
    lemma_step_chain(s0, s3, n, 0, r);
    assert(s3.loose(l));
    assert(n.loose(l));
    assert(n.kept(l) == s3.kept(l));
    lemma_basics(s3);
    s3.rmdb.wr.lemma_pages_in(s3.ps(), l);
    assert(same_page(s3.img(), n.img(), n.ps(), l));
    assert forall|p: int| s0.used(p) implies #[trigger] same_page(
        s0.img(),
        n.img(),
        n.ps(),
        p,
    ) by {
        assert(s1.used(p));
        assert(p != l && p != r);
        assert(same_page(s0.img(), s1.img(), s1.ps(), p));
        assert(same_page(s1.img(), s2.img(), s2.ps(), p));
        assert(same_page(s2.img(), s3.img(), s3.ps(), p));
        assert(same_page(s3.img(), n.img(), n.ps(), p));
    }
    assert forall|p: int| s0.dirty(p) implies #[trigger] n.dirty(p) by {
        if p != l {
            assert(s1.dirty(p) <==> s0.dirty(p));
        }
        if p != r {
            assert(s2.dirty(p) <==> s1.dirty(p));
        }
    }
}

/// The image holds the halves of a node whose children it holds.
proof fn lemma_halves_hold(s: RmdbWTxn, q: Seq<int>, l: int, r: int)
    requires
        s.inv(),
        leads(s.tree@, q),
        part(s.tree@, q) is Node,
        part(s.tree@, q).kids().len() >= 2,
        s.halved(part(s.tree@, q), l, r),
    ensures
        holds(
            s.img(),
            s.lay(),
            left_half(part(s.tree@, q), l),
            height(s.tree@) - q.len(),
            false,
        ),
        holds(
            s.img(),
            s.lay(),
            right_half(part(s.tree@, q), r),
            height(s.tree@) - q.len(),
            false,
        ),
        !has_page(part(s.tree@, q), l),
        !has_page(part(s.tree@, q), r),
{
    let cur = part(s.tree@, q);
    let h = height(s.tree@) - q.len();
    let a = left_half(cur, l);
    let b = right_half(cur, r);
    let half = cur.kids().len() as int / 2;
    lemma_basics(s);
    lemma_node(s, q);
    s.rmdb.wr.lemma_pages_in(s.ps(), l);
    s.rmdb.wr.lemma_pages_in(s.ps(), r);
    assert forall|i: int| 0 <= i < a.kids().len() implies holds(
        s.img(),
        s.lay(),
        #[trigger] a.kids()[i],
        h - 1,
        false,
    ) by {
        assert(a.kids()[i] == cur.kids()[i]);
    }
    assert forall|i: int| 0 <= i < b.kids().len() implies holds(
        s.img(),
        s.lay(),
        #[trigger] b.kids()[i],
        h - 1,
        false,
    ) by {
        assert(b.kids()[i] == cur.kids()[half + i]);
    }
    if has_page(cur, l) {
        lemma_page_sub(s.tree@, q, l);
        assert(s.used(l));
    }
    if has_page(cur, r) {
        lemma_page_sub(s.tree@, q, r);
        assert(s.used(r));
    }
}

/// The halves of a node took its place.
proof fn lemma_linked(s: RmdbWTxn, n: RmdbWTxn, qp: Seq<int>, k: int, l: int, r: int)
    requires
        s.inv(),
        leads(s.tree@, qp),
        part(s.tree@, qp) is Node,
        0 <= k < part(s.tree@, qp).kids().len(),
        part(s.tree@, qp).kids()[k] is Node,
        part(s.tree@, qp).kids()[k].kids().len() >= 2,
        s.halved(part(s.tree@, qp).kids()[k], l, r),
        s.dirty(part(s.tree@, qp).pg()),
        !s.kept(part(s.tree@, qp).pg()),
        n.same_base(s),
        n.np() == s.np(),
        n.img().len() == s.img().len(),
        n.rmdb.wr.freepages == s.rmdb.wr.freepages,
        n.dirtypages == s.dirtypages,
        n.deletepages == s.deletepages,
        n.rootpage == s.rootpage,
        n.tree@ == put(s.tree@, qp, with_halves(part(s.tree@, qp), k, l, r)),
        node_page(
            page(n.img(), n.ps(), part(s.tree@, qp).pg()),
            n.lay(),
            qp.len() == 0,
            with_halves(part(s.tree@, qp), k, l, r).kids(),
        ),
        forall|p: int|
            p != part(s.tree@, qp).pg() ==> #[trigger] same_page(s.img(), n.img(), n.ps(), p),
        forall|p: int|
            in_img(s.img(), s.ps(), p) == #[trigger] in_img(n.img(), n.ps(), p),
    ensures
        n.inv(),
        height(n.tree@) == height(s.tree@),
        entries(n.tree@) == entries(s.tree@),
        forall|p: int| #[trigger] s.loose(p) && p != l && p != r ==> n.loose(p),
        n.loose(part(s.tree@, qp).kids()[k].pg()),
        !n.deleted(part(s.tree@, qp).kids()[k].pg()),
        !in_map(n.base@, part(s.tree@, qp).kids()[k].pg()),
{
    let t = s.tree@;
    let par = part(t, qp);
    let cur = par.kids()[k];
    let m = with_halves(par, k, l, r);
    let q = qp.push(k);
    lemma_basics(s);
    lemma_push(t, qp, k);
    lemma_node(s, qp);
    lemma_halves_hold(s, q, l, r);
    assert(!has_page(par, l) && !has_page(par, r)) by {
        if has_page(par, l) {
            lemma_page_sub(t, qp, l);
            assert(s.used(l));
        }
        if has_page(par, r) {
            lemma_page_sub(t, qp, r);
            assert(s.used(r));
        }
    }
    lemma_with_halves(par, k, l, r);
    assert forall|i: int| 0 <= i < m.kids().len() implies holds(
        s.img(),
        s.lay(),
        #[trigger] m.kids()[i],
        height(t) - qp.len() - 1,
        false,
    ) by {
        if i < k {
            assert(m.kids()[i] == par.kids()[i]);
        } else if i >= k + 2 {
            assert(m.kids()[i] == par.kids()[i - 1]);
        }
    }
    lemma_put_entries(t, qp, m);
    assert forall|p: int, x: Role| #[trigger] plays(m, p, x) && p != m.pg() implies plays(par, p, x)
        || s.new_page(p, x) by {}
    lemma_edit(s, n, qp, m);
    lemma_page_root(cur);
    lemma_page_kid(par, k, cur.pg());
    assert(!has_page(m, cur.pg()));
    assert forall|p: int| #[trigger] s.loose(p) && p != l && p != r implies n.loose(p) by {
        if has_page(par, p) {
            lemma_page_sub(t, qp, p);
            assert(s.used(p));
        }
    }
}

/// A step that ends with linking two new nodes.
proof fn lemma_step_link(s0: RmdbWTxn, s: RmdbWTxn, n: RmdbWTxn, c: int, l: int, r: int)
    requires
        s.step(s0),
        s.inv(),
        n.same_base(s),
        n.dirtypages == s.dirtypages,
        n.deletepages == s.deletepages,
        !s.kept(c),
        !s0.loose(c),
        !s0.loose(l),
        !s0.loose(r),
        forall|p: int| p != c ==> #[trigger] same_page(s.img(), n.img(), n.ps(), p),
        forall|p: int| #[trigger] s.loose(p) && p != l && p != r && p != c ==> n.loose(p),
    ensures
        n.step(s0),
{
    assert forall|p: int| #[trigger] s0.kept(p) implies same_page(
        s0.img(),
        n.img(),
        n.ps(),
        p,
    ) by {
        assert(s.kept(p));
        assert(same_page(s0.img(), s.img(), s.ps(), p));
        assert(same_page(s.img(), n.img(), n.ps(), p));
    }
    assert forall|p: int| #![trigger s0.loose(p)] s0.loose(p) && p != 0 implies n.loose(p)
        && same_page(s0.img(), n.img(), n.ps(), p) && n.deleted(p) == s0.deleted(p) && n.dirty(p)
        == s0.dirty(p) by {
        assert(s.loose(p));
        assert(same_page(s.img(), n.img(), n.ps(), p));
    }
}

impl RmdbWTxn {
    /// Puts the nodes `left` and `right` in the place of `current`, the child `k` of the
    /// node `parent` to which `qp` leads.
    fn link_halves(
        &mut self,
        parent: u32,
        current: u32,
        left: u32,
        right: u32,
        Ghost(qp): Ghost<Seq<int>>,
        Ghost(k): Ghost<int>,
        Ghost(s0): Ghost<RmdbWTxn>,
    )
        requires
            old(self).inv(),
            leads(old(self).tree@, qp),
            part(old(self).tree@, qp) is Node,
            part(old(self).tree@, qp).pg() == parent,
            0 <= k < part(old(self).tree@, qp).kids().len(),
            part(old(self).tree@, qp).kids()[k] is Node,
            part(old(self).tree@, qp).kids()[k].pg() == current,
            part(old(self).tree@, qp).kids()[k].kids().len() >= 2,
            topptr(part(old(self).tree@, qp).kids().len() as int + 1) <= old(self).lay().payload,
            old(self).halved(part(old(self).tree@, qp).kids()[k], left as int, right as int),
            old(self).dirty(parent as int),
            !old(self).kept(parent as int),
            old(self).step(s0),
            !s0.loose(left as int),
            !s0.loose(right as int),
        ensures
            final(self).inv(),
            final(self).step(s0),
            final(self).np() == old(self).np(),
            final(self).tree@ == put(
                old(self).tree@,
                qp,
                with_halves(part(old(self).tree@, qp), k, left as int, right as int),
            ),
            height(final(self).tree@) == height(old(self).tree@),
            entries(final(self).tree@) == entries(old(self).tree@),
            bushy(old(self).tree@) && halves_well(part(old(self).tree@, qp).kids()[k]) ==> bushy(
                final(self).tree@,
            ),
            final(self).dirty(left as int),
            final(self).dirty(right as int),
            final(self).rootpage == old(self).rootpage,
            final(self).deleted(current as int) || final(self).free(current as int),
    {
        let ghost s = *self;
        let ghost t = self.tree@;
        let ghost par = part(t, qp);
        let ghost l = left as int;
        let ghost r = right as int;
        let ghost m = with_halves(par, k, l, r);
        let lay: Layout = self.rmdb.layout;
        proof {
            lemma_basics(s);
            lemma_node(s, qp);
            lemma_types();
            lemma_push(t, qp, k);
            lemma_node(s, qp.push(k));
            assert(s.used(parent as int));
            if has_page(par, l) {
                lemma_page_sub(t, qp, l);
                assert(s.used(l));
            }
            if has_page(par, r) {
                lemma_page_sub(t, qp, r);
                assert(s.used(r));
            }
            lemma_with_halves(par, k, l, r);
            if bushy(t) && halves_well(par.kids()[k]) {
                lemma_with_halves_bushy(s, qp, k, l, r);
            }
        }
        let mut ptrs: Vec<u32> = read_ptrs(&self.rmdb.wr.mmap, lay, parent);
        let ghost old = ptrs@;
        assert(points_to(old, par.kids()));
        let ins: usize = match find_ptr(&ptrs, current) {
            Some(ins) => ins,
            None => {
                assert(old[k] == par.kids()[k].pg());
                assert(false);
                0
            },
        };
        proof {
            assert(old[ins as int] == par.kids()[ins as int].pg());
            if ins != k {
                lemma_kid_pages(par, ins as int, k);
            }
        }
        ptrs.set(ins, left);
        ptrs.insert(ins + 1, right);
        proof {
            assert(points_to(ptrs@, m.kids())) by {
                assert forall|i: int| 0 <= i < m.kids().len() implies ptrs@[i]
                    == (#[trigger] m.kids()[i]).pg() by {
                    if i < k {
                        assert(m.kids()[i] == par.kids()[i]);
                        assert(old[i] == par.kids()[i].pg());
                    } else if i >= k + 2 {
                        assert(m.kids()[i] == par.kids()[i - 1]);
                        assert(old[i - 1] == par.kids()[i - 1].pg());
                    }
                }
            }
        }
        write_ptrs(&mut self.rmdb.wr.mmap, lay, parent, &ptrs);
        self.tree = Ghost(put(t, qp, m));
        let ghost n = *self;
        proof {
            lemma_node_page(
                page(n.img(), n.ps(), parent as int),
                lay,
                qp.len() == 0,
                ptrs@,
                m.kids(),
            );
            lemma_linked(s, n, qp, k, l, r);
            if s0.loose(parent as int) {
                assert(s.loose(parent as int));
            }
            lemma_step_link(s0, s, n, parent as int, l, r);
            lemma_used(s, current as int);
            if s0.loose(current as int) {
                assert(s.loose(current as int));
            }
            lemma_dirty_free(s, current as int);
            assert(same_page(s.img(), n.img(), n.ps(), current as int));
            assert(n.kept(current as int) == s.kept(current as int));
        }
        self.delete_page(current);
        proof {
            lemma_step_chain(s0, n, *self, 0, current as int);
            lemma_among_push(n.deletepages@, current);
            assert(current != left && current != right);
            assert(self.dirty(l) <==> n.dirty(l));
            assert(self.dirty(r) <==> n.dirty(r));
        }
    }
}

/// A node or leaf that is marked as dirty is not saved.
pub(crate) proof fn lemma_dirty_free(s: RmdbWTxn, p: int)
    requires
        s.inv(),
        crate::saved::is_index(s.tree@, p),
    ensures
        page_type(s.img(), s.lay(), p) == 0x8004 ==> !s.kept(p) && s.dirty(p),
{
    reveal(RmdbWTxn::inv);
}

/// Whether the halves of a node of nodes have two children each at least.
pub open spec fn halves_well(cur: Tree) -> bool {
    cur.kids()[0] is Leaf || cur.kids().len() >= 4
}

/// The halves of such a node leave it bushy.
proof fn lemma_halves_bushy(img: Seq<u8>, lay: Layout, cur: Tree, h: int, top: bool, l: int, r: int)
    requires
        holds(img, lay, cur, h, top),
        cur is Node,
        bushy(cur),
        cur.kids().len() >= 2,
        halves_well(cur),
    ensures
        bushy(left_half(cur, l)),
        bushy(right_half(cur, r)),
{
    let kids = cur.kids();
    let half = kids.len() as int / 2;
    let a = left_half(cur, l);
    let b = right_half(cur, r);
    assert forall|i: int| 0 <= i < a.kids().len() implies bushy(#[trigger] a.kids()[i]) by {
        assert(bushy(kids[i]));
    }
    assert forall|i: int| 0 <= i < b.kids().len() implies bushy(#[trigger] b.kids()[i]) by {
        assert(bushy(kids[half + i]));
    }
    assert(holds(img, lay, kids[0], h - 1, false));
    assert(holds(img, lay, kids[half], h - 1, false));
}

/// Two halves in the place of a node leave a tree bushy.
proof fn lemma_with_halves_bushy(s: RmdbWTxn, qp: Seq<int>, k: int, l: int, r: int)
    requires
        s.inv(),
        bushy(s.tree@),
        leads(s.tree@, qp),
        part(s.tree@, qp) is Node,
        0 <= k < part(s.tree@, qp).kids().len(),
        part(s.tree@, qp).kids()[k] is Node,
        part(s.tree@, qp).kids()[k].kids().len() >= 2,
        halves_well(part(s.tree@, qp).kids()[k]),
    ensures
        bushy(put(s.tree@, qp, with_halves(part(s.tree@, qp), k, l, r))),
{
    let t = s.tree@;
    let par = part(t, qp);
    let cur = par.kids()[k];
    let m = with_halves(par, k, l, r);
    lemma_push(t, qp, k);
    lemma_node(s, qp.push(k));
    lemma_bushy_part(t, qp);
    assert(bushy(cur));
    lemma_halves_bushy(
        s.img(),
        s.lay(),
        cur,
        height(t) - qp.push(k).len(),
        qp.push(k).len() == 0,
        l,
        r,
    );
    assert forall|i: int| 0 <= i < m.kids().len() implies bushy(#[trigger] m.kids()[i]) by {
        if i < k {
            assert(bushy(par.kids()[i]));
        } else if i >= k + 2 {
            assert(bushy(par.kids()[i - 1]));
        }
    }
    assert(bushy(m));
    lemma_put_shape(t, qp, m);
}

/// A new root above the halves of the old one.
pub open spec fn root_above(cur: Tree, c: int, l: int, r: int) -> Tree {
    Tree::Node { page: c, kids: seq![left_half(cur, l), right_half(cur, r)] }
}

/// What a new root above the halves of the old one has.
proof fn lemma_root_above(cur: Tree, c: int, l: int, r: int)
    requires
        cur is Node,
        distinct(cur),
        cur.kids().len() >= 2,
        l != r,
        c != l,
        c != r,
        !has_page(cur, l),
        !has_page(cur, r),
        !has_page(cur, c),
    ensures
        ({
            let m = root_above(cur, c, l, r);
            &&& distinct(m)
            &&& entries(m) == entries(cur)
            &&& forall|p: int| #[trigger]
                has_page(m, p) ==> p == c || p == l || p == r || (has_page(cur, p) && p
                    != cur.pg())
            &&& forall|p: int, x: Role| #[trigger]
                plays(m, p, x) ==> (p == c || p == l || p == r) && x is Node || plays(cur, p, x)
        }),
{
    let par = Tree::Node { page: c, kids: seq![cur] };
    let m = root_above(cur, c, l, r);
    assert(par.kids()[0] == cur);
    assert forall|p: int| #[trigger] has_page(par, p) implies p == c || has_page(cur, p) by {
        if p != c {
            let i = lemma_page_cases(par, p);
        }
    }
    assert(distinct(par)) by {
        assert forall|i: int| 0 <= i < par.kids().len() implies distinct(#[trigger] par.kids()[i])
            && !has_page(par.kids()[i], c) by {}
    }
    assert(with_halves(par, 0, l, r).kids() =~= m.kids());
    lemma_with_halves(par, 0, l, r);
    crate::tree::lemma_entries_one(cur);
    assert forall|p: int, x: Role| #[trigger] plays(m, p, x) implies (p == c || p == l || p == r)
        && x is Node || plays(cur, p, x) by {
        if plays(par, p, x) && !(x is Node && p == c) {
            let i = choose|i: int| 0 <= i < par.kids().len() && plays(#[trigger] par.kids()[i], p, x);
        }
    }
}

/// The tree got a new root above the halves of the old one.
proof fn lemma_risen(s: RmdbWTxn, n: RmdbWTxn, c: int, l: int, r: int)
    requires
        s.inv(),
        s.tree@.kids().len() >= 2,
        s.halved(s.tree@, l, r),
        s.new_page(c, Role::Node),
        c != l,
        c != r,
        n.same_base(s),
        n.np() == s.np(),
        n.img().len() == s.img().len(),
        n.rmdb.wr.freepages == s.rmdb.wr.freepages,
        n.dirtypages == s.dirtypages,
        n.deletepages == s.deletepages,
        n.rootpage == c,
        n.tree@ == root_above(s.tree@, c, l, r),
        node_page(page(n.img(), n.ps(), c), n.lay(), true, n.tree@.kids()),
        forall|p: int| p != c ==> #[trigger] same_page(s.img(), n.img(), n.ps(), p),
        forall|p: int|
            in_img(s.img(), s.ps(), p) == #[trigger] in_img(n.img(), n.ps(), p),
    ensures
        n.inv(),
        height(n.tree@) == height(s.tree@) + 1,
        entries(n.tree@) == entries(s.tree@),
        forall|p: int| #[trigger] s.loose(p) && p != l && p != r && p != c ==> n.loose(p),
        n.loose(s.tree@.pg()),
        !n.deleted(s.tree@.pg()),
        !in_map(n.base@, s.tree@.pg()),
{
    let t = s.tree@;
    let q = Seq::<int>::empty();
    let m = n.tree@;
    lemma_basics(s);
    lemma_node(s, q);
    lemma_halves_hold(s, q, l, r);
    assert(!has_page(t, c)) by {
        if has_page(t, c) {
            assert(s.used(c));
        }
    }
    lemma_halves(t, l, r);
    lemma_root_above(t, c, l, r);
    let a = left_half(t, l);
    let b = right_half(t, r);
    let h = height(t);
    s.rmdb.wr.lemma_pages_in(s.ps(), c);
    assert(in_img(n.img(), n.ps(), c));
    assert forall|i: int| 0 <= i < m.kids().len() implies holds(
        n.img(),
        n.lay(),
        #[trigger] m.kids()[i],
        h,
        false,
    ) by {
        let k = m.kids()[i];
        assert forall|p: int| #[trigger] has_page(k, p) implies same_page(
            s.img(),
            n.img(),
            n.ps(),
            p,
        ) by {
            assert(!has_page(m.kids()[i], m.pg()));
            assert(p != c);
        }
        lemma_holds_frame(s.img(), n.img(), s.lay(), k, h, false);
    }
    assert(holds(n.img(), n.lay(), m, h + 1, true));
    lemma_height(n.img(), n.lay(), m, h + 1, true);
    assert(n.rmdb.wr.ok(n.ps()));
    lemma_put_path(t, q, m);
    lemma_relink(s, n, q, m);
    lemma_page_root(t);
    assert(!has_page(m, t.pg()));
    assert forall|p: int| #[trigger] s.loose(p) && p != l && p != r && p != c implies n.loose(p) by {
        if has_page(t, p) {
            assert(s.used(p));
        }
    }
}

impl RmdbWTxn {
    /// Makes an empty root, and a copy of it, which is the one to be used.
    fn new_root(&mut self) -> (c: u32)
        requires
            old(self).inv(),
            room_for(old(self).np(), old(self).ps(), 10),
        ensures
            final(self).inv(),
            final(self).step(*old(self)),
            final(self).same_tree(*old(self)),
            final(self).np() <= old(self).np() + 18,
            final(self).new_page(c as int, Role::Node),
            !old(self).loose(c as int),
            page_type(final(self).img(), final(self).lay(), c as int) == 0x4004,
    {
        let ghost s0 = *self;
        let ps: usize = self.rmdb.layout.pagesize;
        proof {
            lemma_basics(s0);
            lemma_room(s0.np(), s0.ps(), 10, s0.np(), 1);
        }
        let pages: Vec<u32> = self.take_pages(1, false);
        let rootpage: u32 = pages[0];
        let ghost s1 = *self;
        let ghost x = rootpage as int;
        assert(s1.new_page(pages@[0] as int, Role::Data));
        self.mark_dirty(rootpage, true);
        let ghost s2 = *self;
        proof {
            assert(s2.used(x) == s1.used(x));
            assert(s2.free(x) == s1.free(x));
            assert(s2.kept(x) == s1.kept(x));
            lemma_basics(s2);
            s2.rmdb.wr.lemma_pages_in(s2.ps(), x);
            assert(0x0004u16 | 0x4000u16 == 0x4004u16) by (bit_vector);
        }
        set_u16(&mut self.rmdb.wr.mmap, ps, rootpage, POS_PAGETYPE, PAGE_NODE | PAGE_ROOT);
        let ghost img = self.img();
        set_u16(&mut self.rmdb.wr.mmap, ps, rootpage, NODE_NUMPTRS, 0);
        let ghost s3 = *self;
        proof {
            lemma_le16(page(s2.img(), s2.ps(), x), 0, 0x4004u16);
            let pg = page(img, s2.ps(), x);
            let pg2 = page(s3.img(), s2.ps(), x);
            assert(pg2[0] == pg[0] && pg2[1] == pg[1]);
            assert(page_type(s3.img(), s3.lay(), x) == 0x4004);
            assert forall|p: int| p != x implies #[trigger] same_page(
                s2.img(),
                s3.img(),
                s3.ps(),
                p,
            ) by {
                assert(same_page(s2.img(), img, s3.ps(), p));
                assert(same_page(img, s3.img(), s3.ps(), p));
            }
            crate::wtxn::lemma_scribbled(s2, s3, x);
            lemma_step_chain(s0, s1, s2, 0, x);
            lemma_step_chain(s0, s2, s3, 0, x);
            lemma_room(s0.np(), s0.ps(), 10, s3.np(), 1);
            assert(!s3.deleted(x));
        }
        let copy: u32 = self.get_new_page_copy(rootpage);
        let ghost s4 = *self;
        proof {
            lemma_step_chain(s0, s3, s4, 0, 0);
            assert(s3.loose(x));
            assert(s4.loose(x));
            if s0.loose(copy as int) {
                assert(s3.loose(copy as int));
            }
            assert(s4.kept(x) == s3.kept(x));
        }
        self.delete_page(rootpage);
        proof {
            lemma_step_chain(s0, s4, *self, 0, x);
            assert(copy != rootpage);
            assert(s4.loose(copy as int));
            assert(self.loose(copy as int));
            assert(self.kept(copy as int) == s4.kept(copy as int));
        }
        copy
    }

    /// Puts a new root with the children `left` and `right` in the place of the root
    /// `current`.
    fn link_root(
        &mut self,
        parent: u32,
        left: u32,
        right: u32,
        Ghost(s0): Ghost<RmdbWTxn>,
    )
        requires
            old(self).inv(),
            old(self).tree@.kids().len() >= 2,
            old(self).halved(old(self).tree@, left as int, right as int),
            old(self).new_page(parent as int, Role::Node),
            parent != left,
            parent != right,
            page_type(old(self).img(), old(self).lay(), parent as int) == 0x4004,
            old(self).step(s0),
            !s0.loose(parent as int),
            !s0.loose(left as int),
            !s0.loose(right as int),
        ensures
            final(self).inv(),
            final(self).step(s0),
            final(self).np() == old(self).np(),
            final(self).tree@ == root_above(
                old(self).tree@,
                parent as int,
                left as int,
                right as int,
            ),
            height(final(self).tree@) == height(old(self).tree@) + 1,
            entries(final(self).tree@) == entries(old(self).tree@),
            bushy(old(self).tree@) && halves_well(old(self).tree@) ==> bushy(final(self).tree@),
            final(self).dirty(left as int),
            final(self).dirty(right as int),
            final(self).rootpage == parent,
            final(self).deleted(old(self).rootpage as int) || final(self).free(
                old(self).rootpage as int,
            ),
    {
        let ghost s = *self;
        let ghost t = self.tree@;
        let ghost c = parent as int;
        let ghost l = left as int;
        let ghost r = right as int;
        let ghost m = root_above(t, c, l, r);
        let lay: Layout = self.rmdb.layout;
        let current: u32 = self.rootpage;
        proof {
            lemma_basics(s);
            lemma_types();
            lemma_node(s, Seq::empty());
            s.rmdb.wr.lemma_pages_in(s.ps(), c);
            if bushy(t) && halves_well(t) {
                lemma_halves_bushy(s.img(), s.lay(), t, height(t), true, l, r);
                assert forall|i: int| 0 <= i < m.kids().len() implies bushy(
                    #[trigger] m.kids()[i],
                ) by {}
                assert(bushy(m));
            }
        }
        let ptrs: Vec<u32> = vec![left, right];
        write_ptrs(&mut self.rmdb.wr.mmap, lay, parent, &ptrs);
        self.rootpage = parent;
        self.tree = Ghost(m);
        let ghost n = *self;
        proof {
            assert(points_to(ptrs@, m.kids()));
            lemma_node_page(page(n.img(), n.ps(), c), lay, true, ptrs@, m.kids());
            lemma_risen(s, n, c, l, r);
            lemma_step_link(s0, s, n, c, l, r);
            lemma_used(s, current as int);
            if s0.loose(current as int) {
                assert(s.loose(current as int));
            }
            assert(same_page(s.img(), n.img(), n.ps(), current as int));
            assert(page_type(n.img(), n.lay(), current as int) == 0x4004);
        }
        self.delete_page(current);
        proof {
            lemma_step_chain(s0, n, *self, 0, current as int);
            lemma_among_push(n.deletepages@, current);
            assert(current != left && current != right);
            assert(self.dirty(l) <==> n.dirty(l));
            assert(self.dirty(r) <==> n.dirty(r));
        }
    }
}

/// The way to the next child of the same node.
pub open spec fn beside(q: Seq<int>) -> Seq<int> {
    q.drop_last().push(q.last() + 1)
}

impl RmdbWTxn {
    /// Whether `self` has the entries of `s`, with two nodes `l` and `r` next to each other
    /// in the place of the node to which `q` leads; `ql` leads to the first of them.
    pub open spec fn split(
        self,
        s: RmdbWTxn,
        q: Seq<int>,
        l: int,
        r: int,
        ql: Seq<int>,
    ) -> bool {
        let t = s.tree@;
        let u = self.tree@;
        let cur = part(t, q);
        let qr = beside(ql);
        &&& ql.len() > 0
        &&& leads(u, ql)
        &&& leads(u, qr)
        &&& part(u, ql) == left_half(cur, l)
        &&& part(u, qr) == right_half(cur, r)
        &&& entries(u) == entries(t)
        &&& before(u, ql) == before(t, q)
        &&& before(u, qr) == before(t, q) + entries(left_half(cur, l))
        &&& behind(u, ql) == entries(right_half(cur, r)) + behind(t, q)
        &&& behind(u, qr) == behind(t, q)
        &&& height(u) - ql.len() == height(t) - q.len()
        &&& ql.len() <= q.len() + 1
        &&& bushy(t) && halves_well(cur) ==> bushy(u)
        &&& self.dirty(l)
        &&& self.dirty(r)
    }

    /// What became of the parent of a node that was split: a root is split below a new one
    /// that has the two halves alone; a parent with room for a child has the halves in the
    /// place of the node, between the other children.
    pub open spec fn split_parent(
        self,
        s: RmdbWTxn,
        q: Seq<int>,
        l: int,
        r: int,
        ql: Seq<int>,
    ) -> bool {
        let t = s.tree@;
        let u = self.tree@;
        if q.len() == 0 {
            &&& ql == seq![0int]
            &&& u.kids() == seq![left_half(t, l), right_half(t, r)]
            &&& u.pg() == self.rootpage
            &&& self.rootpage != s.rootpage
        } else {
            let par = part(t, q.drop_last());
            topptr(par.kids().len() as int + 1) <= s.lay().payload ==> {
                &&& ql == q
                &&& part(u, q.drop_last()).kids() == with_halves(par, q.last(), l, r).kids()
            }
        }
    }

    /// Whether the node to which `q` leads in the tree of `s` is the child `k` of the node
    /// to which `qp` leads, between the same entries.
    pub open spec fn placed(self, s: RmdbWTxn, q: Seq<int>, qp: Seq<int>, k: int) -> bool {
        let t = s.tree@;
        let u = self.tree@;
        &&& leads(u, qp)
        &&& part(u, qp) is Node
        &&& 0 <= k < part(u, qp).kids().len()
        &&& part(u, qp).kids()[k] == part(t, q)
        &&& entries(u) == entries(t)
        &&& before(u, qp.push(k)) == before(t, q)
        &&& behind(u, qp.push(k)) == behind(t, q)
        &&& height(u) - qp.len() - 1 == height(t) - q.len()
        &&& qp.len() <= q.len()
        &&& bushy(t) ==> bushy(u)
    }
}

/// With its parent replaced, a node is where it was.
proof fn lemma_placed_replaced(s: RmdbWTxn, n: RmdbWTxn, q: Seq<int>, c: int)
    requires
        q.len() > 0,
        leads(s.tree@, q),
        n.replaced(s, q.drop_last(), c),
    ensures
        n.placed(s, q, q.drop_last(), q.last()),
{
    lemma_pop(s.tree@, q);
    lemma_push(s.tree@, q.drop_last(), q.last());
    lemma_push(n.tree@, q.drop_last(), q.last());
}

/// With its parent split, a node is a child of one of the halves.
proof fn lemma_placed_split(
    s: RmdbWTxn,
    n: RmdbWTxn,
    q: Seq<int>,
    l: int,
    r: int,
    ql: Seq<int>,
)
    requires
        q.len() > 0,
        leads(s.tree@, q),
        part(s.tree@, q.drop_last()).kids().len() >= 4,
        n.split(s, q.drop_last(), l, r, ql),
    ensures
        ({
            let half = part(s.tree@, q.drop_last()).kids().len() as int / 2;
            if q.last() < half {
                n.placed(s, q, ql, q.last())
            } else {
                n.placed(s, q, beside(ql), q.last() - half)
            }
        }),
{
    let t = s.tree@;
    let u = n.tree@;
    let up = q.drop_last();
    let k = q.last();
    let par = part(t, up);
    let kids = par.kids();
    let half = kids.len() as int / 2;
    lemma_pop(t, q);
    lemma_push(t, up, k);
    let a = left_half(par, l);
    let b = right_half(par, r);
    if k < half {
        lemma_push(u, ql, k);
        assert(a.kids().take(k) =~= kids.take(k));
        lemma_entries_join(a.kids().skip(k + 1), b.kids());
        assert(a.kids().skip(k + 1) + b.kids() =~= kids.skip(k + 1));
        assert(behind(u, ql.push(k)) =~= behind(t, q));
    } else {
        let qr = beside(ql);
        lemma_push(u, qr, k - half);
        lemma_entries_join(a.kids(), b.kids().take(k - half));
        assert(a.kids() + b.kids().take(k - half) =~= kids.take(k));
        assert(b.kids().skip(k - half + 1) =~= kids.skip(k + 1));
        assert(before(u, qr.push(k - half)) =~= before(t, q));
    }
}

/// The halves are in the place of a node.
proof fn lemma_split_done(
    s0: RmdbWTxn,
    s: RmdbWTxn,
    n: RmdbWTxn,
    q: Seq<int>,
    qp: Seq<int>,
    k: int,
    l: int,
    r: int,
)
    requires
        s.placed(s0, q, qp, k),
        part(s0.tree@, q) is Node,
        part(s0.tree@, q).kids().len() >= 2,
        n.tree@ == put(s.tree@, qp, with_halves(part(s.tree@, qp), k, l, r)),
        height(n.tree@) == height(s.tree@),
        entries(n.tree@) == entries(s.tree@),
        bushy(s.tree@) && halves_well(part(s.tree@, qp).kids()[k]) ==> bushy(n.tree@),
        n.dirty(l),
        n.dirty(r),
    ensures
        n.split(s0, q, l, r, qp.push(k)),
{
    let t = s.tree@;
    let u = n.tree@;
    let par = part(t, qp);
    let kids = par.kids();
    let m = with_halves(par, k, l, r);
    let cur = kids[k];
    let a = left_half(cur, l);
    let b = right_half(cur, r);
    let ql = qp.push(k);
    lemma_put_path(t, qp, m);
    lemma_push(t, qp, k);
    assert(m.kids()[k] == a);
    assert(m.kids()[k + 1] == b);
    lemma_push(u, qp, k);
    lemma_push(u, qp, k + 1);
    assert(ql.drop_last() =~= qp);
    assert(beside(ql) == qp.push(k + 1));
    assert(m.kids().take(k) =~= kids.take(k));
    assert(m.kids().take(k + 1) =~= kids.take(k) + seq![a]);
    lemma_entries_join(kids.take(k), seq![a]);
    crate::tree::lemma_entries_one(a);
    assert(before(u, beside(ql)) =~= before(t, ql) + entries(a));
    assert(m.kids().skip(k + 2) =~= kids.skip(k + 1));
    assert(m.kids().skip(k + 1) =~= seq![b] + kids.skip(k + 1));
    lemma_entries_join(seq![b], kids.skip(k + 1));
    crate::tree::lemma_entries_one(b);
    assert(behind(u, ql) =~= entries(b) + behind(t, ql));
}

/// The halves are below a new root.
proof fn lemma_split_root(s0: RmdbWTxn, n: RmdbWTxn, c: int, l: int, r: int)
    requires
        n.tree@ == root_above(s0.tree@, c, l, r),
        height(n.tree@) == height(s0.tree@) + 1,
        entries(n.tree@) == entries(s0.tree@),
        bushy(s0.tree@) && halves_well(s0.tree@) ==> bushy(n.tree@),
        n.dirty(l),
        n.dirty(r),
    ensures
        n.split(s0, Seq::empty(), l, r, seq![0int]),
{
    let cur = s0.tree@;
    let u = n.tree@;
    let a = left_half(cur, l);
    let b = right_half(cur, r);
    let e = Seq::<int>::empty();
    let ql = seq![0int];
    assert(e.push(0) =~= ql);
    assert(ql.drop_last() =~= e);
    assert(beside(ql) =~= e.push(1));
    lemma_push(u, e, 0);
    lemma_push(u, e, 1);
    assert(u.kids().take(0) =~= Seq::empty());
    assert(u.kids().take(1) =~= seq![a]);
    assert(u.kids().skip(2) =~= Seq::empty());
    assert(u.kids().skip(1) =~= seq![b]);
    crate::tree::lemma_entries_one(a);
    crate::tree::lemma_entries_one(b);
    assert(before(u, ql) =~= before(cur, e));
    assert(before(u, beside(ql)) =~= before(cur, e) + entries(a));
    assert(behind(u, ql) =~= entries(b) + behind(cur, e));
    assert(behind(u, beside(ql)) =~= behind(cur, e));
}

impl RmdbWTxn {
    /// Splits the node `current`, to which `q` leads, into two with half of its children
    /// each. Where its parent is full, that is split first; where it is the root, a new
    /// root comes above. `parents` are the nodes above.
    pub(crate) fn split_node(
        &mut self,
        parents: &mut Vec<u32>,
        current: u32,
        Ghost(q): Ghost<Seq<int>>,
    ) -> (r: Result<(u32, u32, Ghost<Seq<int>>), RmdbError>)
        requires
            old(self).inv(),
            leads(old(self).tree@, q),
            part(old(self).tree@, q) is Node,
            part(old(self).tree@, q).pg() == current,
            part(old(self).tree@, q).kids().len() >= 2,
            if q.len() > 0 {
                nums(old(parents)@) == trail(old(self).tree@, q.drop_last())
            } else {
                old(parents).len() == 0
            },
            room_for(old(self).np(), old(self).ps(), 5 * (3 * (q.len() as int + 1) + 2)),
        ensures
            final(self).inv(),
            final(self).step(*old(self)),
            final(self).np() <= old(self).np() + 9 * (3 * (q.len() + 1) + 2),
            match r {
                Ok((left, right, ql)) => {
                    &&& final(self).split(*old(self), q, left as int, right as int, ql@)
                    &&& final(self).split_parent(*old(self), q, left as int, right as int, ql@)
                    &&& nums(final(parents)@) == trail(final(self).tree@, ql@.drop_last())
                    &&& node_page(
                        page(final(self).img(), final(self).ps(), final(parents)@.last() as int),
                        final(self).lay(),
                        ql@.len() == 1,
                        part(final(self).tree@, ql@.drop_last()).kids(),
                    )
                    &&& final(self).deleted(current as int) || final(self).free(current as int)
                    &&& !final(self).kept(left as int)
                    &&& !final(self).kept(right as int)
                },
                Err(_) => false,
            },
        decreases q.len(), 1nat,
    {
        let ghost s0 = *self;
        let ghost t0 = self.tree@;
        let ghost cur = part(t0, q);
        let ghost up = q.drop_last();
        let ghost par0 = parents@;
        proof {
            lemma_basics(s0);
            lemma_types();
            if q.len() > 0 {
                lemma_pop(t0, q);
                lemma_push(t0, up, q.last());
                lemma_trail_last(t0, up);
                lemma_trail_len(t0, up);
                assert(nums(parents@).last() == parents@.last());
                lemma_node(s0, up);
            }
        }
        let popped: Option<u32> = parents.pop();
        proof {
            if q.len() > 0 {
                assert(nums(parents@) =~= nums(par0).drop_last());
                if up.len() > 0 {
                    lemma_pop(t0, up);
                    lemma_push(t0, up.drop_last(), up.last());
                    assert(trail(t0, up).drop_last() =~= trail(t0, up.drop_last()));
                } else {
                    assert(parents@.len() == 0);
                }
            }
        }
        match popped {
            None => {
                let (parent, left, right) = self.split_root();
                parents.push(parent);
                let ghost ql = seq![0int];
                proof {
                    assert(q =~= Seq::empty());
                    assert(ql.drop_last() =~= Seq::empty());
                    assert(nums(parents@) =~= seq![parent as int]);
                    lemma_basics(*self);
                    lemma_node(*self, Seq::empty());
                }
                Ok((left, right, Ghost(ql)))
            },
            Some(p) => {
                proof {
                    lemma_room(
                        s0.np(),
                        s0.ps(),
                        5 * (3 * (q.len() as int + 1) + 2),
                        s0.np(),
                        5 * (3 * (q.len() as int) + 2),
                    );
                }
                let (parent, Ghost(qp), Ghost(k)) = self.parent_with_space(
                    parents,
                    p,
                    current,
                    Ghost(q),
                )?;
                let ghost s1 = *self;
                proof {
                    lemma_push(s1.tree@, qp, k);
                    lemma_room(
                        s0.np(),
                        s0.ps(),
                        5 * (3 * (q.len() as int + 1) + 2),
                        s1.np(),
                        10,
                    );
                }
                let (left, right) = self.halve(current, Ghost(qp.push(k)));
                let ghost s2 = *self;
                proof {
                    lemma_step_chain(s0, s1, s2, 0, 0);
                    if s0.loose(left as int) {
                        assert(s1.loose(left as int));
                    }
                    if s0.loose(right as int) {
                        assert(s1.loose(right as int));
                    }
                    assert(s2.kept(left as int) == s0.kept(left as int));
                    assert(s2.kept(right as int) == s0.kept(right as int));
                    assert(s2.kept(parent as int) == s1.kept(parent as int));
                }
                self.link_halves(
                    parent,
                    current,
                    left,
                    right,
                    Ghost(qp),
                    Ghost(k),
                    Ghost(s0),
                );
                proof {
                    lemma_split_done(s0, s2, *self, q, qp, k, left as int, right as int);
                }
                let ghost above = parents@;
                parents.push(parent);
                proof {
                    let ql = qp.push(k);
                    let m = with_halves(part(s2.tree@, qp), k, left as int, right as int);
                    assert(ql.drop_last() =~= qp);
                    lemma_put_trail(s2.tree@, qp, m);
                    lemma_put_path(s2.tree@, qp, m);
                    assert(nums(parents@) =~= nums(above).push(parent as int));
                    if qp.len() > 0 {
                        lemma_pop(s2.tree@, qp);
                        lemma_push(s2.tree@, qp.drop_last(), qp.last());
                    } else {
                        assert(nums(above) =~= Seq::empty());
                    }
                    assert(nums(parents@) =~= trail(s2.tree@, qp));
                    lemma_basics(*self);
                    lemma_node(*self, qp);
                    if topptr(part(t0, up).kids().len() as int + 1) <= s0.lay().payload {
                        assert(ql =~= q);
                        assert(m.kids() =~= with_halves(part(t0, up), q.last(), left as int, right as int).kids());
                    }
                }
                Ok((left, right, Ghost(qp.push(k))))
            },
        }
    }

    /// Splits the root.
    fn split_root(&mut self) -> (x: (u32, u32, u32))
        requires
            old(self).inv(),
            old(self).tree@.kids().len() >= 2,
            room_for(old(self).np(), old(self).ps(), 25),
        ensures
            final(self).inv(),
            final(self).step(*old(self)),
            final(self).np() <= old(self).np() + 36,
            final(self).split(
                *old(self),
                Seq::empty(),
                x.1 as int,
                x.2 as int,
                seq![0int],
            ),
            !final(self).kept(x.1 as int),
            !final(self).kept(x.2 as int),
            final(self).tree@ == root_above(old(self).tree@, x.0 as int, x.1 as int, x.2 as int),
            final(self).rootpage == x.0,
            x.0 != old(self).rootpage,
            final(self).deleted(old(self).rootpage as int) || final(self).free(
                old(self).rootpage as int,
            ),
    {
        let ghost s0 = *self;
        proof {
            lemma_basics(s0);
            lemma_room(s0.np(), s0.ps(), 25, s0.np(), 10);
        }
        let parent: u32 = self.new_root();
        let ghost s1 = *self;
        let current: u32 = self.rootpage;
        proof {
            lemma_room(s0.np(), s0.ps(), 25, s1.np(), 10);
        }
        let (left, right) = self.halve(current, Ghost(Seq::empty()));
        let ghost s2 = *self;
        proof {
            lemma_step_chain(s0, s1, s2, 0, 0);
            assert(s1.loose(parent as int));
            assert(s2.loose(parent as int));
            lemma_basics(s1);
            s1.rmdb.wr.lemma_pages_in(s1.ps(), parent as int);
            assert(same_page(s1.img(), s2.img(), s2.ps(), parent as int));
            assert(s2.kept(parent as int) == s1.kept(parent as int));
            if s0.loose(left as int) {
                assert(s1.loose(left as int));
            }
            if s0.loose(right as int) {
                assert(s1.loose(right as int));
            }
        }
        self.link_root(parent, left, right, Ghost(s0));
        proof {
            lemma_split_root(s0, *self, parent as int, left as int, right as int);
            assert(self.kept(left as int) == s2.kept(left as int));
            assert(self.kept(right as int) == s2.kept(right as int));
        }
        (parent, left, right)
    }

    /// Sees to it that the parent of the node `current`, to which `q` leads, can be written
    /// and has room for one more child: the node `p`, a copy of it, or one of its halves.
    fn parent_with_space(
        &mut self,
        parents: &mut Vec<u32>,
        p: u32,
        current: u32,
        Ghost(q): Ghost<Seq<int>>,
    ) -> (r: Result<(u32, Ghost<Seq<int>>, Ghost<int>), RmdbError>)
        requires
            old(self).inv(),
            q.len() > 0,
            leads(old(self).tree@, q),
            part(old(self).tree@, q) is Node,
            part(old(self).tree@, q).pg() == current,
            part(old(self).tree@, q.drop_last()) is Node,
            part(old(self).tree@, q.drop_last()).pg() == p,
            if q.len() > 1 {
                nums(old(parents)@) == trail(old(self).tree@, q.drop_last().drop_last())
            } else {
                old(parents).len() == 0
            },
            room_for(old(self).np(), old(self).ps(), 5 * (3 * (q.len() as int) + 2)),
        ensures
            final(self).inv(),
            final(self).step(*old(self)),
            final(self).np() <= old(self).np() + 9 * (3 * q.len() + 2),
            match r {
                Ok((parent, qp, k)) => {
                    &&& final(self).placed(*old(self), q, qp@, k@)
                    &&& part(final(self).tree@, qp@).pg() == parent
                    &&& final(self).dirty(parent as int)
                    &&& !final(self).kept(parent as int)
                    &&& topptr(part(final(self).tree@, qp@).kids().len() as int + 1)
                        <= final(self).lay().payload
                    &&& if qp@.len() > 0 {
                        nums(final(parents)@) == trail(final(self).tree@, qp@.drop_last())
                    } else {
                        final(parents).len() == 0
                    }
                    &&& topptr(part(old(self).tree@, q.drop_last()).kids().len() as int + 1) <= old(
                        self,
                    ).lay().payload ==> {
                        &&& qp@ == q.drop_last()
                        &&& k@ == q.last()
                        &&& part(final(self).tree@, qp@).kids() == part(
                            old(self).tree@,
                            q.drop_last(),
                        ).kids()
                    }
                },
                Err(_) => false,
            },
        decreases q.len(), 0nat,
    {
        let ghost s0 = *self;
        let ghost t0 = self.tree@;
        let ghost up = q.drop_last();
        let ghost k = q.last();
        let ghost par = part(t0, up);
        let ps: usize = self.rmdb.layout.pagesize;
        let lay: Layout = self.rmdb.layout;
        proof {
            lemma_basics(s0);
            lemma_types();
            lemma_pop(t0, q);
            lemma_push(t0, up, k);
            lemma_node(s0, up);
        }
        let ptype: u16 = get_u16(self.rmdb.wr.mmap.as_slice(), ps, p, POS_PAGETYPE);
        let nptrs: usize = get_u16(self.rmdb.wr.mmap.as_slice(), ps, p, NODE_NUMPTRS) as usize;
        let top: usize = NODE_FIRSTPTR + nptrs * PTRSZ;
        if top + PTRSZ <= lay.payload {
            let mut parent: u32 = p;
            if ptype & PAGE_DIRTY != PAGE_DIRTY {
                proof {
                    lemma_room(
                        s0.np(),
                        s0.ps(),
                        5 * (3 * (q.len() as int) + 2),
                        s0.np(),
                        5 * (up.len() as int + 1),
                    );
                }
                parent = self.replace_node(parents, p, Ghost(up))?;
            } else {
                proof {
                    lemma_replaced_self(s0, up);
                    lemma_step_self(s0);
                }
            }
            proof {
                lemma_placed_replaced(s0, *self, q, parent as int);
            }
            return Ok((parent, Ghost(up), Ghost(k)));
        }
        let (left, right, Ghost(ql)) = self.split_node(parents, p, Ghost(up))?;
        let ghost half = par.kids().len() as int / 2;
        proof {
            lemma_placed_split(s0, *self, q, left as int, right as int, ql);
            lemma_node(*self, ql);
            lemma_basics(*self);
            assert(beside(ql).drop_last() =~= ql.drop_last());
        }
        let lptrs: Vec<u32> = read_ptrs(&self.rmdb.wr.mmap, lay, left);
        let ghost a = left_half(par, left as int);
        assert(part(self.tree@, ql) == a);
        match find_ptr(&lptrs, current) {
            Some(i) => {
                proof {
                    assert(lptrs@[i as int] == a.kids()[i as int].pg());
                    assert(a.kids()[i as int] == par.kids()[i as int]);
                    if i != k {
                        lemma_kid_pages(par, i as int, k);
                    }
                }
                Ok((left, Ghost(ql), Ghost(k)))
            },
            None => {
                proof {
                    if k < half {
                        assert(a.kids()[k] == par.kids()[k]);
                        assert(lptrs@[k] == a.kids()[k].pg());
                    }
                }
                Ok((right, Ghost(beside(ql)), Ghost(k - half)))
            },
        }
    }
}

} // verus!
