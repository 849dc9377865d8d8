//! Changes to the tree. A node that is saved is never written: a copy takes its place,
//! and then its parent has to point to the copy.
use crate::bytes::{
    get_u16, get_u32, in_img, le32, lemma_le32, lemma_page_len, page, same_page, set_u32, splice,
    u16_at, u32_at,
};
use crate::error::RmdbError;
use crate::fetch::{lemma_trail_last, lemma_types, nums};
use crate::layout::{topptr, Layout, NODE_FIRSTPTR, NODE_NUMPTRS, PAGE_DIRTY, POS_PAGETYPE, PTRSZ};
use crate::path::{lemma_kid_pages, lemma_pop, lemma_push, lemma_put_trail, lemma_trail_len, trail};
use crate::saved::{in_map, is_index, page_type};
use crate::store::room_for;
use crate::tree::{
    before, behind, bushy, distinct, entries, entries_of, has_page, height, holds, leads,
    lemma_bushy_part, lemma_distinct_sub, lemma_entries_at, lemma_has_kid, lemma_has_sub,
    lemma_height, lemma_holds_frame, lemma_holds_sub, lemma_page_cases, lemma_page_kid,
    lemma_page_root, lemma_page_sub, lemma_put_distinct, lemma_put_entries, lemma_put_has,
    lemma_put_page, lemma_put_path, lemma_put_shape, lemma_root_apart, node_page, part, plays, put,
    sorted, Role, Tree,
};
use crate::wtxn::{lemma_basics, lemma_relink, lemma_step_chain, lemma_used, RmdbWTxn};
use vstd::prelude::*;

verus! {

/// Less growth takes less room.
pub(crate) proof fn lemma_room(np: int, ps: int, n: int, np2: int, n2: int)
    requires
        room_for(np, ps, n),
        np2 + 2 * n2 <= np + 2 * n,
        ps >= 0,
    ensures
        room_for(np2, ps, n2),
{
    assert((np2 + 2 * n2 + 8) * ps <= (np + 2 * n + 8) * ps) by (nonlinear_arith)
        requires
            np2 + 2 * n2 <= np + 2 * n,
            ps >= 0,
    ;
}

/// A node of the transaction's tree in the image.
pub(crate) proof fn lemma_node(s: RmdbWTxn, q: Seq<int>)
    requires
        s.inv(),
        leads(s.tree@, q),
        part(s.tree@, q) is Node,
    ensures
        ({
            let n = part(s.tree@, q);
            let p = n.pg();
            &&& holds(s.img(), s.lay(), n, height(s.tree@) - q.len(), q.len() == 0)
            &&& node_page(page(s.img(), s.ps(), p), s.lay(), q.len() == 0, n.kids())
            &&& distinct(n)
            &&& s.used(p)
            &&& 1 <= p < s.np()
            &&& in_img(s.img(), s.ps(), p)
            &&& page(s.img(), s.ps(), p).len() == s.ps()
            &&& is_index(s.tree@, p)
            &&& q.len() == 0 || n.kids().len() > 0
        }),
{
    reveal(RmdbWTxn::inv);
    let t = s.tree@;
    let n = part(t, q);
    lemma_holds_sub(s.img(), s.lay(), t, q, height(t), true);
    lemma_distinct_sub(t, q);
    lemma_page_root(n);
    lemma_page_sub(t, q, n.pg());
    lemma_has_sub(t, q, n.pg(), Role::Node);
    assert(s.used(n.pg()));
    s.rmdb.wr.lemma_pages_in(s.ps(), n.pg());
}

/// A child of a node in the image of another state in which only pages outside of the
/// child are others.
pub(crate) proof fn lemma_kid_frame(
    a: Seq<u8>,
    b: Seq<u8>,
    lay: Layout,
    n: Tree,
    i: int,
    h: int,
    top: bool,
)
    requires
        lay.sane(),
        n is Node,
        holds(a, lay, n, h, top),
        distinct(n),
        0 <= i < n.kids().len(),
        forall|p: int| p != n.pg() ==> #[trigger] same_page(a, b, lay.ps(), p),
    ensures
        holds(b, lay, n.kids()[i], h - 1, false),
{
    let k = n.kids()[i];
    assert forall|p: int| #[trigger] has_page(k, p) implies same_page(a, b, lay.ps(), p) by {
        assert(p != n.pg());
    }
    lemma_holds_frame(a, b, lay, k, h - 1, false);
}

/// The pointers of a node, by its page.
pub open spec fn ptrs(pg: Seq<u8>) -> Seq<int> {
    Seq::new(u16_at(pg, NODE_NUMPTRS as int) as nat, |j: int| u32_at(pg, topptr(j)) as int)
}

/// Whether `i` is the first place of `x` in `s`.
pub open spec fn is_first(s: Seq<int>, x: int, i: int) -> bool {
    &&& 0 <= i < s.len()
    &&& s[i] == x
    &&& forall|j: int| 0 <= j < i ==> #[trigger] s[j] != x
}

/// The pointers of a node are the pages of its children.
pub(crate) proof fn lemma_ptrs(pg: Seq<u8>, lay: Layout, top: bool, kids: Seq<Tree>)
    requires
        node_page(pg, lay, top, kids),
    ensures
        ptrs(pg).len() == kids.len(),
        forall|j: int| 0 <= j < kids.len() ==> #[trigger] ptrs(pg)[j] == kids[j].pg(),
{
    assert forall|j: int| 0 <= j < kids.len() implies #[trigger] ptrs(pg)[j] == kids[j].pg() by {
        assert(u32_at(pg, topptr(j)) == kids[j].pg());
    }
}

/// A node one of whose pointers is another has a child with that page in its place.
pub(crate) proof fn lemma_childptr(
    pg: Seq<u8>,
    new: Seq<u8>,
    lay: Layout,
    top: bool,
    n: Tree,
    i: int,
    newptr: u32,
)
    requires
        n is Node,
        distinct(n),
        node_page(pg, lay, top, n.kids()),
        0 <= i < n.kids().len(),
        pg.len() >= lay.payload,
        exists|j: int| #[trigger]
            is_first(ptrs(pg), n.kids()[i].pg(), j) && new == splice(pg, topptr(j), le32(newptr))
                && ptrs(new) == ptrs(pg).update(j, newptr as int),
    ensures
        forall|k: Tree|
            k.pg() == newptr ==> node_page(new, lay, top, #[trigger] n.kids().update(i, k)),
{
    let kids = n.kids();
    let j = choose|j: int| #[trigger]
        is_first(ptrs(pg), kids[i].pg(), j) && new == splice(pg, topptr(j), le32(newptr)) && ptrs(
            new,
        ) == ptrs(pg).update(j, newptr as int);
    lemma_ptrs(pg, lay, top, kids);
    if i != j {
        assert(ptrs(pg)[j] == kids[j].pg());
        lemma_kid_pages(n, i, j);
    }
    assert(new[0] == pg[0] && new[1] == pg[1] && new[2] == pg[2] && new[3] == pg[3]);
    assert forall|c: Tree| c.pg() == newptr implies node_page(
        new,
        lay,
        top,
        #[trigger] kids.update(i, c),
    ) by {
        let m = kids.update(i, c);
        assert forall|k: int| #![trigger m[k]] 0 <= k < m.len() implies u32_at(new, topptr(k))
            == m[k].pg() by {
            assert(ptrs(new)[k] == u32_at(new, topptr(k)));
            assert(ptrs(new)[k] == ptrs(pg).update(j, newptr as int)[k]);
            if k != i {
                assert(ptrs(pg)[k] == kids[k].pg());
            }
        }
    }
}

impl RmdbWTxn {
    /// Whether `self` has the tree of `s`, but with the page `c` for the node to which `q`
    /// leads, and perhaps other pages for the nodes above.
    pub open spec fn replaced(self, s: RmdbWTxn, q: Seq<int>, c: int) -> bool {
        let t = s.tree@;
        let u = self.tree@;
        &&& leads(u, q)
        &&& part(u, q) == (Tree::Node { page: c, kids: part(t, q).kids() })
        &&& entries(u) == entries(t)
        &&& before(u, q) == before(t, q)
        &&& behind(u, q) == behind(t, q)
        &&& height(u) == height(t)
        &&& bushy(t) ==> bushy(u)
        &&& self.dirty(c)
        &&& !self.kept(c)
    }

    /// Makes the first pointer of the node `parent` to `curptr` one to `newptr`, if there is
    /// one.
    pub(crate) fn replace_childptr(&mut self, parent: u32, curptr: u32, newptr: u32) -> (r: Result<
        (),
        RmdbError,
    >)
        requires
            old(self).lay().sane(),
            in_img(old(self).img(), old(self).ps(), parent as int),
            topptr(ptrs(page(old(self).img(), old(self).ps(), parent as int)).len() as int) <= old(
                self,
            ).lay().payload,
        ensures
            *final(self) == (RmdbWTxn {
                rmdb: (crate::db::Rmdb {
                    wr: (crate::store::RmdbWr { mmap: final(self).rmdb.wr.mmap, ..old(self).rmdb.wr }),
                    ..old(self).rmdb
                }),
                ..*old(self)
            }),
            final(self).img().len() == old(self).img().len(),
            ({
                let pg = page(old(self).img(), old(self).ps(), parent as int);
                let new = page(final(self).img(), final(self).ps(), parent as int);
                match r {
                    Ok(_) => exists|i: int| #[trigger]
                        is_first(ptrs(pg), curptr as int, i) && new == splice(
                            pg,
                            topptr(i),
                            le32(newptr),
                        ) && ptrs(new) == ptrs(pg).update(i, newptr as int),
                    Err(e) => {
                        &&& e is KeyNotFound
                        &&& !ptrs(pg).contains(curptr as int)
                        &&& *final(self) == *old(self)
                    },
                }
            }),
            forall|q: int|
                q != parent ==> #[trigger] same_page(
                    old(self).img(),
                    final(self).img(),
                    final(self).ps(),
                    q,
                ),
            forall|q: int|
                in_img(old(self).img(), old(self).ps(), q) == #[trigger] in_img(
                    final(self).img(),
                    final(self).ps(),
                    q,
                ),
    {
        let ps: usize = self.rmdb.layout.pagesize;
        let ghost pg = page(self.img(), self.ps(), parent as int);
        let nptrs: usize = get_u16(self.rmdb.wr.mmap.as_slice(), ps, parent, NODE_NUMPTRS) as usize;
        let mut k: usize = 0;
        while k < nptrs
            invariant
                *self == *old(self),
                self.lay().sane(),
                ps == self.lay().pagesize,
                in_img(self.img(), self.ps(), parent as int),
                pg == page(self.img(), self.ps(), parent as int),
                nptrs == ptrs(pg).len(),
                topptr(nptrs as int) <= self.lay().payload,
                k <= nptrs,
                forall|j: int| 0 <= j < k ==> #[trigger] ptrs(pg)[j] != curptr,
            decreases nptrs - k,
        {
            let idx: usize = NODE_FIRSTPTR + k * PTRSZ;
            let ptr: u32 = get_u32(self.rmdb.wr.mmap.as_slice(), ps, parent, idx);
            assert(ptr == ptrs(pg)[k as int]);
            if ptr == curptr {
                proof {
                    lemma_page_len(self.img(), self.ps(), parent as int);
                    lemma_le32(pg, idx as int, newptr);
                }
                set_u32(&mut self.rmdb.wr.mmap, ps, parent, idx, newptr);
                proof {
                    let new = page(self.img(), self.ps(), parent as int);
                    assert(new == splice(pg, idx as int, le32(newptr)));
                    assert(new[0] == pg[0] && new[1] == pg[1] && new[2] == pg[2] && new[3] == pg[3]);
                    assert forall|j: int| 0 <= j < nptrs && j != k implies #[trigger] ptrs(new)[j]
                        == ptrs(pg)[j] by {
                        let a = topptr(j);
                        assert(new[a] == pg[a] && new[a + 1] == pg[a + 1] && new[a + 2] == pg[a + 2]
                            && new[a + 3] == pg[a + 3]);
                    }
                    assert(ptrs(new) =~= ptrs(pg).update(k as int, newptr as int));
                    assert(is_first(ptrs(pg), curptr as int, k as int));
                }
                return Ok(());
            }
            k = k + 1;
        }
        Err(RmdbError::KeyNotFound)
    }

    /// Puts the copy `newpage` in the place of the root.
    fn swap_root(&mut self, newpage: u32)
        requires
            old(self).inv(),
            old(self).new_page(newpage as int, Role::Node),
            page(old(self).img(), old(self).ps(), newpage as int) == page(
                old(self).img(),
                old(self).ps(),
                old(self).rootpage as int,
            ),
        ensures
            final(self).inv(),
            final(self).step_but(*old(self), newpage as int),
            final(self).np() == old(self).np(),
            final(self).img() == old(self).img(),
            final(self).rootpage == newpage,
            final(self).deletepages@ == old(self).deletepages@.push(old(self).rootpage),
            final(self).replaced(*old(self), Seq::empty(), newpage as int),
    {
        let ghost s1 = *self;
        let ghost t0 = self.tree@;
        let ghost c = newpage as int;
        let current: u32 = self.rootpage;
        self.rootpage = newpage;
        self.tree = Ghost(Tree::Node { page: c, kids: t0.kids() });
        let ghost s2 = *self;
        proof {
            lemma_types();
            lemma_basics(s1);
            lemma_node(s1, Seq::empty());
            lemma_reroot(s1, s2, c);
            lemma_page_root(t0);
            assert(s1.used(current as int));
            assert(s2.step_but(s1, c));
        }
        self.delete_page(current);
        proof {
            lemma_step_chain(s1, s2, *self, c, current as int);
        }
    }

    /// Puts the copy `newpage` in the place of the node `current`, to which `q` leads and
    /// whose parent is `parent`.
    fn swap_child(&mut self, parent: u32, current: u32, newpage: u32, Ghost(q): Ghost<Seq<int>>)
        requires
            old(self).inv(),
            q.len() > 0,
            leads(old(self).tree@, q),
            part(old(self).tree@, q) is Node,
            part(old(self).tree@, q).pg() == current,
            part(old(self).tree@, q.drop_last()).pg() == parent,
            old(self).dirty(parent as int),
            !old(self).kept(parent as int),
            page_type(old(self).img(), old(self).lay(), current as int) != 0x8004,
            old(self).new_page(newpage as int, Role::Node),
            node_page(
                page(old(self).img(), old(self).ps(), newpage as int),
                old(self).lay(),
                false,
                part(old(self).tree@, q).kids(),
            ),
        ensures
            final(self).inv(),
            final(self).step_but(*old(self), newpage as int),
            final(self).np() == old(self).np(),
            forall|p: int|
                p != parent ==> #[trigger] same_page(
                    old(self).img(),
                    final(self).img(),
                    final(self).ps(),
                    p,
                ),
            final(self).replaced(*old(self), q, newpage as int),
            final(self).deletepages@ == old(self).deletepages@.push(current),
            final(self).rootpage == old(self).rootpage,
            trail(final(self).tree@, q.drop_last()) == trail(old(self).tree@, q.drop_last()),
    {
        let ghost s2 = *self;
        let ghost t = self.tree@;
        let ghost c = newpage as int;
        let ghost up = q.drop_last();
        let ghost k = q.last();
        let ghost par = part(t, up);
        proof {
            lemma_types();
            lemma_basics(s2);
            lemma_pop(t, q);
            lemma_push(t, up, k);
            lemma_node(s2, up);
            lemma_node(s2, q);
            if has_page(par, c) {
                lemma_page_sub(t, up, c);
                assert(s2.used(c));
            }
            lemma_repaged(par, k, c);
        }
        let ghost m = repaged(par, k, c);
        proof {
            lemma_ptrs(page(s2.img(), s2.ps(), parent as int), s2.lay(), up.len() == 0, par.kids());
            assert(ptrs(page(s2.img(), s2.ps(), parent as int))[k] == current);
        }
        match self.replace_childptr(parent, current, newpage) {
            Ok(_) => {},
            Err(_) => {
                assert(false);
            },
        }
        proof {
            lemma_childptr(
                page(s2.img(), s2.ps(), parent as int),
                page(self.img(), self.ps(), parent as int),
                s2.lay(),
                up.len() == 0,
                par,
                k,
                newpage,
            );
        }
        self.tree = Ghost(put(t, up, m));
        let ghost s3 = *self;
        proof {
            if up.len() == 0 {
                assert(up =~= Seq::empty());
            }
            lemma_put_path(t, up, m);
            lemma_put_trail(t, up, m);
            if bushy(t) {
                lemma_repaged_bushy(t, up, k, c);
            }
            lemma_repoint(s2, s3, q, c);
            assert(same_page(s2.img(), s3.img(), s3.ps(), current as int));
            lemma_swap_step(s2, s3, parent as int, c);
        }
        self.delete_page(current);
        proof {
            lemma_step_chain(s2, s3, *self, c, current as int);
        }
    }

    /// Puts a copy in the place of the node `current`, to which `q` leads, and in the place
    /// of the nodes above it that point to it and are saved. `parents` are the nodes above.
    pub(crate) fn replace_node(&mut self, parents: &mut Vec<u32>, current: u32, Ghost(q): Ghost<Seq<int>>) -> (r:
        Result<u32, RmdbError>)
        requires
            old(self).inv(),
            leads(old(self).tree@, q),
            part(old(self).tree@, q) is Node,
            part(old(self).tree@, q).pg() == current,
            q.len() > 0 ==> nums(old(parents)@) == trail(old(self).tree@, q.drop_last()),
            page_type(old(self).img(), old(self).lay(), current as int) != 0x8004,
            room_for(old(self).np(), old(self).ps(), 5 * (q.len() as int + 1)),
        ensures
            final(self).inv(),
            final(self).step(*old(self)),
            final(self).np() <= old(self).np() + 9 * (q.len() + 1),
            forall|p: int| #[trigger]
                has_page(part(old(self).tree@, q), p) ==> same_page(
                    old(self).img(),
                    final(self).img(),
                    final(self).ps(),
                    p,
                ),
            match r {
                Ok(c) => {
                    &&& final(self).replaced(*old(self), q, c as int)
                    &&& c != current
                    &&& page(final(self).img(), final(self).ps(), c as int) == page(
                        old(self).img(),
                        old(self).ps(),
                        current as int,
                    )
                    &&& final(self).deletepages@.len() > 0
                    &&& final(self).deletepages@.last() == current
                    &&& q.len() == 0 ==> final(self).rootpage == c && final(parents)@ == old(
                        parents,
                    )@
                    &&& q.len() > 0 ==> nums(final(parents)@) == trail(
                        final(self).tree@,
                        q.drop_last(),
                    )
                },
                Err(_) => false,
            },
        decreases q.len(),
    {
        let ghost s0 = *self;
        let ghost t0 = self.tree@;
        let ghost cur = part(t0, q);
        let ghost up = q.drop_last();
        proof {
            lemma_basics(s0);
            lemma_node(s0, q);
            lemma_used(s0, current as int);
            lemma_types();
            lemma_room(s0.np(), s0.ps(), 5 * (q.len() as int + 1), s0.np(), 1);
            if q.len() > 0 {
                lemma_root_apart(t0, q);
            } else {
                assert(q =~= Seq::empty());
            }
        }
        let newpage: u32 = self.get_new_page_copy(current);
        let ghost s1 = *self;
        let ghost c = newpage as int;
        proof {
            assert(same_page(s0.img(), s1.img(), s1.ps(), current as int)) by {
                assert(c != current);
            }
            lemma_basics(s1);
            s1.rmdb.wr.lemma_pages_in(s1.ps(), c);
        }
        if current == self.rootpage {
            self.swap_root(newpage);
            proof {
                lemma_step_chain(s0, s1, *self, 0, c);
                lemma_replaced_chain(s0, s1, *self, q, c);
                lemma_below_same(s0, s1, q, c);
            }
            return Ok(newpage);
        }
        proof {
            lemma_pop(t0, q);
            lemma_push(t0, up, q.last());
            lemma_trail_last(t0, up);
            lemma_trail_len(t0, up);
            assert(nums(parents@).last() == parents@.last());
        }
        let ghost par0 = parents@;
        let mut parent: u32 = match parents.pop() {
            Some(parent) => parent,
            None => {
                assert(false);
                return Err(RmdbError::InvalidMetadata);
            },
        };
        proof {
            lemma_node(s1, up);
            assert(nums(parents@) =~= nums(par0).drop_last());
            if up.len() > 0 {
                lemma_pop(t0, up);
                lemma_push(t0, up.drop_last(), up.last());
                assert(trail(t0, up).drop_last() =~= trail(t0, up.drop_last()));
            }
            lemma_room(
                s0.np(),
                s0.ps(),
                5 * (q.len() as int + 1),
                s1.np(),
                5 * (up.len() as int + 1),
            );
        }
        let ps: usize = self.rmdb.layout.pagesize;
        let ptype: u16 = get_u16(self.rmdb.wr.mmap.as_slice(), ps, parent, POS_PAGETYPE);
        if ptype & PAGE_DIRTY != PAGE_DIRTY {
            parent = self.replace_node(parents, parent, Ghost(up))?;
        } else {
            proof {
                lemma_replaced_self(s1, up);
                lemma_step_self(s1);
            }
        }
        let ghost s2 = *self;
        proof {
            lemma_copy_ready(s1, s2, up, q, parent as int, c);
        }
        self.swap_child(parent, current, newpage, Ghost(q));
        proof {
            lemma_step_chain(s0, s1, s2, 0, 0);
            lemma_step_chain(s0, s2, *self, 0, c);
            lemma_replaced_chain(s0, s2, *self, q, c);
            lemma_below_same(s0, s1, q, c);
            lemma_below_kept(s0, s1, s2, *self, q, parent as int);
            lemma_node(s2, up);
            assert(s2.loose(c) && s2.used(parent as int));
            assert(same_page(s2.img(), self.img(), self.ps(), c));
            lemma_basics(s2);
            s2.rmdb.wr.lemma_pages_in(s2.ps(), c);
        }
        // the stack of parents is as before, with what took the place of the parent
        let ghost above = parents@;
        parents.push(parent);
        proof {
            assert(nums(parents@) =~= nums(above).push(parent as int));
            if up.len() > 0 {
                lemma_pop(s2.tree@, up);
                lemma_push(s2.tree@, up.drop_last(), up.last());
            } else {
                assert(nums(above) =~= Seq::empty());
            }
            assert(nums(parents@) =~= trail(s2.tree@, up));
        }
        Ok(newpage)
    }
}

/// No step at all.
pub(crate) proof fn lemma_step_self(s: RmdbWTxn)
    ensures
        s.step(s),
{
}

/// What comes of a tree with the same entries and the same node comes of the first tree.
proof fn lemma_replaced_chain(s0: RmdbWTxn, s1: RmdbWTxn, s2: RmdbWTxn, q: Seq<int>, c: int)
    requires
        s2.replaced(s1, q, c),
        part(s1.tree@, q).kids() == part(s0.tree@, q).kids(),
        entries(s1.tree@) == entries(s0.tree@),
        before(s1.tree@, q) == before(s0.tree@, q),
        behind(s1.tree@, q) == behind(s0.tree@, q),
        height(s1.tree@) == height(s0.tree@),
        bushy(s0.tree@) ==> bushy(s1.tree@),
    ensures
        s2.replaced(s0, q, c),
{
}

/// With the parent replaced, the copy of its child is still to take the child's place.
proof fn lemma_copy_ready(
    s1: RmdbWTxn,
    s2: RmdbWTxn,
    up: Seq<int>,
    q: Seq<int>,
    parent: int,
    c: int,
)
    requires
        s1.inv(),
        s2.inv(),
        s2.step(s1),
        q.len() > 0,
        up == q.drop_last(),
        leads(s1.tree@, q),
        part(s1.tree@, q) is Node,
        s2.replaced(s1, up, parent),
        forall|p: int| #[trigger]
            has_page(part(s1.tree@, up), p) ==> same_page(s1.img(), s2.img(), s2.ps(), p),
        s1.new_page(c, Role::Node),
        node_page(page(s1.img(), s1.ps(), c), s1.lay(), false, part(s1.tree@, q).kids()),
        page_type(s1.img(), s1.lay(), part(s1.tree@, q).pg()) == 0x0004,
    ensures
        leads(s2.tree@, q),
        part(s2.tree@, q) == part(s1.tree@, q),
        part(s2.tree@, up).pg() == parent,
        before(s2.tree@, q) == before(s1.tree@, q),
        behind(s2.tree@, q) == behind(s1.tree@, q),
        s2.new_page(c, Role::Node),
        page(s2.img(), s2.ps(), c) == page(s1.img(), s1.ps(), c),
        page_type(s2.img(), s2.lay(), part(s2.tree@, q).pg()) != 0x8004,
{
    reveal(RmdbWTxn::inv);
    lemma_pop(s1.tree@, q);
    lemma_push(s1.tree@, up, q.last());
    lemma_push(s2.tree@, up, q.last());
    assert(s1.loose(c));
    s1.rmdb.wr.lemma_pages_in(s1.ps(), c);
    assert(same_page(s1.img(), s2.img(), s2.ps(), c));
    let cur = part(s1.tree@, q);
    lemma_node(s1, q);
    lemma_page_root(cur);
    lemma_page_kid(part(s1.tree@, up), q.last(), cur.pg());
    assert(same_page(s1.img(), s2.img(), s2.ps(), cur.pg()));
}

/// A copy leaves what it is a copy of.
proof fn lemma_below_same(s0: RmdbWTxn, s1: RmdbWTxn, q: Seq<int>, c: int)
    requires
        leads(s0.tree@, q),
        !s0.used(c),
        forall|p: int| p != c ==> #[trigger] same_page(s0.img(), s1.img(), s1.ps(), p),
    ensures
        forall|p: int| #[trigger]
            has_page(part(s0.tree@, q), p) ==> same_page(s0.img(), s1.img(), s1.ps(), p),
{
    assert forall|p: int| #[trigger] has_page(part(s0.tree@, q), p) implies same_page(
        s0.img(),
        s1.img(),
        s1.ps(),
        p,
    ) by {
        lemma_page_sub(s0.tree@, q, p);
        assert(s0.used(p));
    }
}

/// Replacing a parent leaves what is below it.
proof fn lemma_below_kept(
    s0: RmdbWTxn,
    s1: RmdbWTxn,
    s2: RmdbWTxn,
    s3: RmdbWTxn,
    q: Seq<int>,
    parent: int,
)
    requires
        s2.inv(),
        q.len() > 0,
        leads(s0.tree@, q),
        s1.tree == s0.tree,
        s2.ps() == s1.ps(),
        s3.ps() == s1.ps(),
        leads(s2.tree@, q),
        part(s2.tree@, q) == part(s0.tree@, q),
        part(s2.tree@, q.drop_last()).pg() == parent,
        forall|p: int| #[trigger]
            has_page(part(s0.tree@, q), p) ==> same_page(s0.img(), s1.img(), s1.ps(), p),
        forall|p: int| #[trigger]
            has_page(part(s1.tree@, q.drop_last()), p) ==> same_page(
                s1.img(),
                s2.img(),
                s2.ps(),
                p,
            ),
        forall|p: int| p != parent ==> #[trigger] same_page(s2.img(), s3.img(), s3.ps(), p),
    ensures
        forall|p: int| #[trigger]
            has_page(part(s0.tree@, q), p) ==> same_page(s0.img(), s3.img(), s3.ps(), p),
{
    reveal(RmdbWTxn::inv);
    let up = q.drop_last();
    let k = q.last();
    lemma_pop(s0.tree@, q);
    lemma_push(s0.tree@, up, k);
    lemma_pop(s2.tree@, q);
    lemma_push(s2.tree@, up, k);
    lemma_distinct_sub(s2.tree@, up);
    assert forall|p: int| #[trigger] has_page(part(s0.tree@, q), p) implies same_page(
        s0.img(),
        s3.img(),
        s3.ps(),
        p,
    ) by {
        lemma_page_kid(part(s0.tree@, up), k, p);
        assert(has_page(part(s2.tree@, up).kids()[k], p));
        assert(p != parent);
        assert(same_page(s2.img(), s3.img(), s3.ps(), p));
    }
}

/// A child was swapped for a copy.
proof fn lemma_swap_step(s: RmdbWTxn, n: RmdbWTxn, parent: int, c: int)
    requires
        s.inv(),
        n.same_base(s),
        n.dirtypages == s.dirtypages,
        n.deletepages == s.deletepages,
        s.used(parent),
        !s.kept(parent),
        forall|p: int| p != parent ==> #[trigger] same_page(s.img(), n.img(), n.ps(), p),
        forall|p: int| #[trigger] s.loose(p) && p != c ==> n.loose(p),
    ensures
        n.step_but(s, c),
{
    reveal(RmdbWTxn::inv);
    assert forall|p: int| #[trigger] s.kept(p) implies same_page(s.img(), n.img(), n.ps(), p) by {
        assert(p != parent);
    }
    assert forall|p: int| #![trigger s.loose(p)] s.loose(p) && p != c implies n.loose(p)
        && same_page(s.img(), n.img(), n.ps(), p) && n.deleted(p) == s.deleted(p) && n.dirty(p)
        == s.dirty(p) by {
        assert(p != parent);
    }
}

/// A node that is marked as dirty need not be replaced.
pub(crate) proof fn lemma_replaced_self(s: RmdbWTxn, q: Seq<int>)
    requires
        s.inv(),
        leads(s.tree@, q),
        part(s.tree@, q) is Node,
        page_type(s.img(), s.lay(), part(s.tree@, q).pg()) == 0x8004,
    ensures
        s.replaced(s, q, part(s.tree@, q).pg()),
{
    reveal(RmdbWTxn::inv);
    lemma_node(s, q);
}

/// The node in place of which the child `k` of a node has the page `c`.
pub(crate) open spec fn repaged(par: Tree, k: int, c: int) -> Tree {
    put(par, seq![k], Tree::Node { page: c, kids: par.kids()[k].kids() })
}

/// Another page for a node leaves a tree bushy.
proof fn lemma_repaged_bushy(t: Tree, up: Seq<int>, k: int, c: int)
    requires
        bushy(t),
        leads(t, up),
        part(t, up) is Node,
        0 <= k < part(t, up).kids().len(),
        part(t, up).kids()[k] is Node,
    ensures
        bushy(put(t, up, repaged(part(t, up), k, c))),
{
    let par = part(t, up);
    let cur = par.kids()[k];
    let m = Tree::Node { page: c, kids: cur.kids() };
    lemma_bushy_part(t, up);
    assert(bushy(cur));
    assert(bushy(m));
    reveal_with_fuel(leads, 2);
    reveal_with_fuel(part, 2);
    assert(seq![k].drop_first() =~= Seq::empty());
    lemma_put_shape(par, seq![k], m);
    lemma_put_shape(t, up, repaged(par, k, c));
}

/// A node with another page for its own.
pub(crate) proof fn lemma_distinct_page(n: Tree, c: int)
    requires
        n is Node,
        distinct(n),
        forall|i: int| 0 <= i < n.kids().len() ==> !has_page(#[trigger] n.kids()[i], c),
    ensures
        distinct(Tree::Node { page: c, kids: n.kids() }),
{
    match n {
        Tree::Node { page, kids } => {
            assert(n.kids() == kids);
            assert forall|i: int| 0 <= i < kids.len() implies distinct(#[trigger] kids[i])
                && !has_page(kids[i], c) by {
                assert(!has_page(n.kids()[i], c));
            }
        },
        _ => {},
    }
}

/// A node whose child got another page.
pub(crate) proof fn lemma_repaged(par: Tree, k: int, c: int)
    requires
        par is Node,
        distinct(par),
        0 <= k < par.kids().len(),
        par.kids()[k] is Node,
        !has_page(par, c),
    ensures
        ({
            let m = repaged(par, k, c);
            let cur = par.kids()[k];
            let m2 = Tree::Node { page: c, kids: cur.kids() };
            &&& m == Tree::Node { page: par.pg(), kids: par.kids().update(k, m2) }
            &&& distinct(m)
            &&& entries(m) == entries(par)
            &&& forall|p: int| #[trigger]
                has_page(m, p) <==> p == c || (has_page(par, p) && p != cur.pg())
            &&& forall|p: int, r: Role| #[trigger]
                plays(m, p, r) ==> p == c && r is Node || plays(par, p, r)
        }),
{
    let q = seq![k];
    let cur = par.kids()[k];
    let m2 = Tree::Node { page: c, kids: cur.kids() };
    let m = repaged(par, k, c);
    reveal_with_fuel(leads, 2);
    reveal_with_fuel(part, 2);
    reveal_with_fuel(put, 2);
    assert(q.drop_first() =~= Seq::<int>::empty());
    assert(leads(par, q));
    assert(part(par, q) == cur);
    assert forall|p: int, r: Role| #[trigger] plays(m2, p, r) implies p == c && r is Node || plays(
        cur,
        p,
        r,
    ) by {
        if !(p == c && r is Node) {
            let i = choose|i: int| 0 <= i < m2.kids().len() && plays(#[trigger] m2.kids()[i], p, r);
            assert(cur.kids()[i] == m2.kids()[i]);
            lemma_has_kid(cur, i, p, r);
        }
    }
    assert forall|p: int| #[trigger] has_page(cur, p) implies has_page(par, p) by {
        lemma_page_kid(par, k, p);
    }
    assert(distinct(par.kids()[k]));
    assert(cur is Node && distinct(cur));
    assert forall|i: int| 0 <= i < cur.kids().len() implies !has_page(#[trigger] cur.kids()[i], c) by {
        if has_page(cur.kids()[i], c) {
            lemma_page_kid(cur, i, c);
        }
    }
    lemma_distinct_page(cur, c);
    assert forall|p: int| #[trigger] has_page(m2, p) <==> p == c || (has_page(cur, p) && p
        != cur.pg()) by {
        if has_page(m2, p) && p != c {
            let i = lemma_page_cases(m2, p);
            lemma_page_kid(cur, i, p);
        }
        if has_page(cur, p) && p != cur.pg() {
            let i = lemma_page_cases(cur, p);
            lemma_page_kid(m2, i, p);
        }
        lemma_page_root(m2);
    }
    lemma_put_distinct(par, q, m2);
    lemma_put_entries(par, q, m2);
    assert(entries(m2) == entries(cur));
    assert forall|p: int| #[trigger] has_page(m, p) <==> p == c || (has_page(par, p) && p
        != cur.pg()) by {
        lemma_put_page(par, q, m2, p);
        lemma_page_root(cur);
    }
    assert forall|p: int, r: Role| #[trigger] plays(m, p, r) implies p == c && r is Node || plays(
        par,
        p,
        r,
    ) by {
        lemma_put_has(par, q, m2, p, r);
        if plays(m2, p, r) && !(p == c && r is Node) {
            lemma_has_kid(par, k, p, r);
        }
    }
}

/// A copy takes the place of a node: its parent points to it.
proof fn lemma_repoint(s: RmdbWTxn, n: RmdbWTxn, q: Seq<int>, c: int)
    requires
        s.inv(),
        q.len() > 0,
        leads(s.tree@, q),
        part(s.tree@, q) is Node,
        s.dirty(part(s.tree@, q.drop_last()).pg()),
        !s.kept(part(s.tree@, q.drop_last()).pg()),
        s.new_page(c, Role::Node),
        node_page(page(s.img(), s.ps(), c), s.lay(), false, part(s.tree@, q).kids()),
        n.same_base(s),
        n.np() == s.np(),
        n.rmdb.wr.ok(n.ps()),
        n.rmdb.wr.ls() == s.rmdb.wr.ls(),
        n.dirtypages == s.dirtypages,
        n.deletepages == s.deletepages,
        n.rootpage == s.rootpage,
        n.tree@ == put(
            s.tree@,
            q.drop_last(),
            repaged(part(s.tree@, q.drop_last()), q.last(), c),
        ),
        node_page(
            page(n.img(), n.ps(), part(s.tree@, q.drop_last()).pg()),
            n.lay(),
            q.len() == 1,
            repaged(part(s.tree@, q.drop_last()), q.last(), c).kids(),
        ),
        forall|p: int|
            p != part(s.tree@, q.drop_last()).pg() ==> #[trigger] same_page(
                s.img(),
                n.img(),
                n.ps(),
                p,
            ),
        in_img(n.img(), n.ps(), part(s.tree@, q.drop_last()).pg()),
    ensures
        n.inv(),
        leads(n.tree@, q),
        part(n.tree@, q) == (Tree::Node { page: c, kids: part(s.tree@, q).kids() }),
        entries(n.tree@) == entries(s.tree@),
        before(n.tree@, q) == before(s.tree@, q),
        behind(n.tree@, q) == behind(s.tree@, q),
        height(n.tree@) == height(s.tree@),
        forall|p: int| #[trigger] s.loose(p) && p != c ==> n.loose(p),
        n.loose(part(s.tree@, q).pg()),
        !n.deleted(part(s.tree@, q).pg()),
        !in_map(n.base@, part(s.tree@, q).pg()),
{
    reveal(RmdbWTxn::inv);
    let t = s.tree@;
    let up = q.drop_last();
    let k = q.last();
    let par = part(t, up);
    let cur = part(t, q);
    lemma_pop(t, q);
    lemma_push(t, up, k);
    lemma_node(s, up);
    lemma_node(s, q);
    let m = repaged(par, k, c);
    let m2 = Tree::Node { page: c, kids: cur.kids() };
    assert(cur == par.kids()[k]);
    assert(!has_page(par, c)) by {
        if has_page(par, c) {
            lemma_page_sub(t, up, c);
            assert(s.used(c));
        }
    }
    lemma_repaged(par, k, c);
    let h = height(t) - up.len();
    // the image holds the new child, and the others as before
    assert(holds(n.img(), n.lay(), m2, h - 1, false)) by {
        assert(c != par.pg());
        assert(same_page(s.img(), n.img(), n.ps(), c));
        s.rmdb.wr.lemma_pages_in(s.ps(), c);
        lemma_kid_frame(s.img(), n.img(), s.lay(), par, k, h, up.len() == 0);
        assert forall|i: int| 0 <= i < m2.kids().len() implies holds(
            n.img(),
            n.lay(),
            #[trigger] m2.kids()[i],
            h - 2,
            false,
        ) by {
            assert(cur.kids()[i] == m2.kids()[i]);
        }
    }
    assert(holds(n.img(), n.lay(), m, h, up.len() == 0)) by {
        assert forall|i: int| 0 <= i < m.kids().len() implies holds(
            n.img(),
            n.lay(),
            #[trigger] m.kids()[i],
            h - 1,
            false,
        ) by {
            if i != k {
                assert(m.kids()[i] == par.kids()[i]);
                lemma_kid_frame(s.img(), n.img(), s.lay(), par, i, h, up.len() == 0);
            }
        }
    }
    if up.len() == 0 {
        assert(up =~= Seq::empty());
        lemma_height(n.img(), n.lay(), m, h, true);
    }
    lemma_put_entries(t, up, m);
    lemma_put_path(t, up, m);
    assert forall|p: int, r: Role| #[trigger] plays(m, p, r) && p != m.pg() implies plays(par, p, r)
        || s.new_page(p, r) by {}
    lemma_relink(s, n, up, m);
    assert(part(n.tree@, up) == m);
    lemma_push(n.tree@, up, k);
    assert(m.kids().take(k) =~= par.kids().take(k));
    assert(m.kids().skip(k + 1) =~= par.kids().skip(k + 1));
    lemma_page_root(cur);
    lemma_page_kid(par, k, cur.pg());
    assert(has_page(par, cur.pg()) && !has_page(m, cur.pg()));
    assert forall|p: int| #[trigger] s.loose(p) && p != c implies n.loose(p) by {
        if has_page(par, p) {
            lemma_page_sub(t, up, p);
            assert(s.used(p));
        }
    }
}

/// A copy takes the place of the root.
proof fn lemma_reroot(s: RmdbWTxn, n: RmdbWTxn, c: int)
    requires
        s.inv(),
        s.new_page(c, Role::Node),
        page(s.img(), s.ps(), c) == page(s.img(), s.ps(), s.tree@.pg()),
        n.same_base(s),
        n.rmdb == s.rmdb,
        n.dirtypages == s.dirtypages,
        n.deletepages == s.deletepages,
        n.rootpage == c,
        n.tree@ == (Tree::Node { page: c, kids: s.tree@.kids() }),
    ensures
        n.inv(),
        entries(n.tree@) == entries(s.tree@),
        height(n.tree@) == height(s.tree@),
        bushy(s.tree@) ==> bushy(n.tree@),
        forall|p: int| #[trigger] s.loose(p) && p != c ==> n.loose(p),
        n.loose(s.tree@.pg()),
        !n.deleted(s.tree@.pg()),
        !in_map(n.base@, s.tree@.pg()),
{
    reveal(RmdbWTxn::inv);
    let t = s.tree@;
    let m = n.tree@;
    let q = Seq::<int>::empty();
    lemma_node(s, q);
    s.rmdb.wr.lemma_pages_in(s.ps(), c);
    assert(!s.used(c));
    assert forall|p: int, r: Role| #[trigger] plays(m, p, r) implies p == c && r is Node || plays(
        t,
        p,
        r,
    ) by {
        if !(p == c && r is Node) {
            let i = choose|i: int| 0 <= i < m.kids().len() && plays(#[trigger] m.kids()[i], p, r);
            assert(t.kids()[i] == m.kids()[i]);
            lemma_has_kid(t, i, p, r);
        }
    }
    assert forall|p: int| #[trigger] has_page(m, p) implies p == c || has_page(t, p) && p
        != t.pg() by {
        if p != c {
            let i = lemma_page_cases(m, p);
            lemma_page_kid(t, i, p);
        }
    }
    assert forall|i: int| 0 <= i < t.kids().len() implies !has_page(#[trigger] t.kids()[i], c) by {
        if has_page(t.kids()[i], c) {
            lemma_page_kid(t, i, c);
        }
    }
    lemma_distinct_page(t, c);
    assert(height(m) == height(t));
    assert(holds(n.img(), n.lay(), m, height(m), true)) by {
        assert forall|i: int| 0 <= i < m.kids().len() implies holds(
            n.img(),
            n.lay(),
            #[trigger] m.kids()[i],
            height(m) - 1,
            false,
        ) by {
            assert(t.kids()[i] == m.kids()[i]);
        }
    }
    lemma_relink(s, n, q, m);
    lemma_page_root(t);
    assert(!has_page(m, t.pg()));
    assert forall|p: int| #[trigger] s.loose(p) && p != c implies n.loose(p) by {
        if has_page(t, p) {
            assert(s.used(p));
        }
    }
}

/// A node that the transaction made gets other children.
pub(crate) proof fn lemma_edit(s: RmdbWTxn, n: RmdbWTxn, q: Seq<int>, m: Tree)
    requires
        s.inv(),
        leads(s.tree@, q),
        part(s.tree@, q) is Node,
        m is Node,
        m.pg() == part(s.tree@, q).pg(),
        s.dirty(m.pg()),
        !s.kept(m.pg()),
        q.len() == 0 || m.kids().len() > 0,
        n.same_base(s),
        n.np() == s.np(),
        n.img().len() == s.img().len(),
        n.rmdb.wr.freepages == s.rmdb.wr.freepages,
        n.dirtypages == s.dirtypages,
        n.deletepages == s.deletepages,
        n.rootpage == s.rootpage,
        n.tree@ == put(s.tree@, q, m),
        node_page(page(n.img(), n.ps(), m.pg()), n.lay(), q.len() == 0, m.kids()),
        forall|p: int| p != m.pg() ==> #[trigger] same_page(s.img(), n.img(), n.ps(), p),
        forall|p: int|
            in_img(s.img(), s.ps(), p) == #[trigger] in_img(n.img(), n.ps(), p),
        forall|i: int|
            0 <= i < m.kids().len() ==> holds(
                s.img(),
                s.lay(),
                #[trigger] m.kids()[i],
                height(s.tree@) - q.len() - 1,
                false,
            ),
        distinct(m),
        forall|p: int, k: Role| #[trigger]
            plays(m, p, k) && p != m.pg() ==> plays(part(s.tree@, q), p, k) || s.new_page(p, k),
        sorted(entries(n.tree@)),
    ensures
        n.inv(),
        q.len() > 0 || m.kids().len() > 0 ==> height(n.tree@) == height(s.tree@),
        forall|p: int| #[trigger] s.loose(p) && !has_page(m, p) ==> n.loose(p),
        forall|p: int| #[trigger]
            has_page(part(s.tree@, q), p) && !has_page(m, p) ==> n.loose(p) && !n.deleted(p)
                && !in_map(n.base@, p),
{
    let t = s.tree@;
    let h = height(t) - q.len();
    lemma_basics(s);
    lemma_node(s, q);
    assert(in_img(n.img(), n.ps(), m.pg()));
    assert(n.rmdb.wr.ok(n.ps()));
    assert(h >= 1);
    assert forall|i: int| 0 <= i < m.kids().len() implies holds(
        n.img(),
        n.lay(),
        #[trigger] m.kids()[i],
        h - 1,
        false,
    ) by {
        let k = m.kids()[i];
        assert forall|p: int| #[trigger] has_page(k, p) implies same_page(
            s.img(),
            n.img(),
            n.ps(),
            p,
        ) by {
            assert(p != m.pg());
        }
        lemma_holds_frame(s.img(), n.img(), s.lay(), k, h - 1, false);
    }
    if q.len() == 0 {
        assert(q =~= Seq::empty());
        if m.kids().len() > 0 {
            assert(holds(n.img(), n.lay(), m, h, true));
            lemma_height(n.img(), n.lay(), m, h, true);
        } else {
            assert(holds(n.img(), n.lay(), m, 1, true));
        }
    } else {
        assert(holds(n.img(), n.lay(), m, h, false));
    }
    lemma_put_path(t, q, m);
    lemma_relink(s, n, q, m);
}

/// A node with another child in the place of one.
pub(crate) proof fn lemma_child_put(par: Tree, i: int, c: Tree)
    requires
        par is Node,
        distinct(par),
        0 <= i < par.kids().len(),
        distinct(c),
        forall|p: int| #[trigger] has_page(c, p) ==> !has_page(par, p),
    ensures
        ({
            let m = Tree::Node { page: par.pg(), kids: par.kids().update(i, c) };
            let old = par.kids()[i];
            &&& distinct(m)
            &&& entries(m) == entries_of(par.kids().take(i)) + entries(c) + entries_of(
                par.kids().skip(i + 1),
            )
            &&& forall|p: int, k: Role| #[trigger] plays(m, p, k) ==> plays(par, p, k) || plays(c, p, k)
            &&& forall|p: int| #[trigger]
                has_page(m, p) <==> has_page(c, p) || (has_page(par, p) && !has_page(old, p))
        }),
{
    let q = seq![i];
    let m = Tree::Node { page: par.pg(), kids: par.kids().update(i, c) };
    reveal_with_fuel(leads, 2);
    reveal_with_fuel(part, 2);
    reveal_with_fuel(put, 2);
    assert(q.drop_first() =~= Seq::<int>::empty());
    assert(leads(par, q));
    assert(part(par, q) == par.kids()[i]);
    assert(put(par, q, c) == m);
    lemma_put_distinct(par, q, c);
    lemma_entries_at(m.kids(), i);
    assert(m.kids().take(i) =~= par.kids().take(i));
    assert(m.kids().skip(i + 1) =~= par.kids().skip(i + 1));
    assert forall|p: int, k: Role| #[trigger] plays(m, p, k) implies plays(par, p, k) || plays(
        c,
        p,
        k,
    ) by {
        lemma_put_has(par, q, c, p, k);
    }
    assert forall|p: int| #[trigger] has_page(m, p) <==> has_page(c, p) || (has_page(par, p)
        && !has_page(par.kids()[i], p)) by {
        lemma_put_page(par, q, c, p);
    }
}

} // verus!
