//! Removing keys.
use crate::bytes::{get_u16, in_img, page, same_page};
use crate::contents::lemma_contents_remove;
use crate::cow::{lemma_edit, lemma_node, lemma_replaced_self, lemma_room, lemma_step_self};
use crate::error::RmdbError;
use crate::fetch::{leaf_no, lemma_trail_last, lemma_types, nums, passed, RmdbFetch};
use crate::layout::{Layout, NODE_NUMPTRS, PAGE_DIRTY, POS_PAGETYPE};
use crate::node::{find_ptr, lemma_node_page, points_to, read_ptrs, write_ptrs};
use crate::path::{
    is_key, lemma_depth, lemma_kid_pages, lemma_pop, lemma_push, lemma_sorted_parts,
    lemma_trail_len, lemma_way, slot, trail, way,
};
use crate::saved::{in_map, is_index, page_type};
use crate::store::room_for;
use crate::tree::{
    before, behind, distinct, entries, entries_of, has_page, height, holds, leads,
    lemma_entries_join, lemma_has_kid, lemma_has_sub, lemma_height, lemma_page_cases,
    lemma_page_kid, lemma_page_root, lemma_page_sub, lemma_put_entries, lemma_put_shape, node_page,
    part, plays, put, sorted, Role, Tree,
};
use crate::wtxn::{lemma_basics, RmdbWTxn};
use crate::blocks::lemma_among_push;
use vstd::prelude::*;

verus! {

/// A node with one child less.
proof fn lemma_child_gone(par: Tree, i: int)
    requires
        par is Node,
        distinct(par),
        0 <= i < par.kids().len(),
    ensures
        ({
            let m = Tree::Node { page: par.pg(), kids: par.kids().remove(i) };
            &&& distinct(m)
            &&& entries(m) == entries_of(par.kids().take(i)) + entries_of(par.kids().skip(i + 1))
            &&& forall|p: int, k: Role| #[trigger] plays(m, p, k) ==> plays(par, p, k)
            &&& forall|p: int| #[trigger] has_page(m, p) ==> !has_page(par.kids()[i], p)
        }),
{
    let kids = par.kids();
    let m = Tree::Node { page: par.pg(), kids: kids.remove(i) };
    let ms = m.kids();
    assert forall|j: int| 0 <= j < ms.len() implies #[trigger] ms[j] == kids[if j < i {
        j
    } else {
        j + 1
    }] by {}
    lemma_page_root(par);
    assert(distinct(m)) by {
        assert forall|j: int| 0 <= j < ms.len() implies distinct(#[trigger] ms[j]) && !has_page(
            ms[j],
            m.pg(),
        ) by {
            let x = if j < i {
                j
            } else {
                j + 1
            };
            assert(distinct(kids[x]));
        }
        assert forall|a: int, b: int, p: int|
            #![trigger has_page(ms[a], p), has_page(ms[b], p)]
            0 <= a < ms.len() && 0 <= b < ms.len() && a != b && has_page(ms[a], p) implies !has_page(
            ms[b],
            p,
        ) by {
            let x = if a < i {
                a
            } else {
                a + 1
            };
            let y = if b < i {
                b
            } else {
                b + 1
            };
            assert(has_page(kids[x], p));
            if has_page(ms[b], p) {
                assert(has_page(kids[y], p));
            }
        }
    }
    assert(ms =~= kids.take(i) + kids.skip(i + 1));
    lemma_entries_join(kids.take(i), kids.skip(i + 1));
    assert forall|p: int, k: Role| #[trigger] plays(m, p, k) implies plays(par, p, k) by {
        if !(k is Node && p == m.pg()) {
            let j = choose|j: int| 0 <= j < ms.len() && plays(#[trigger] ms[j], p, k);
            let x = if j < i {
                j
            } else {
                j + 1
            };
            lemma_has_kid(par, x, p, k);
        }
    }
    assert forall|p: int| #[trigger] has_page(m, p) implies !has_page(kids[i], p) by {
        if p != m.pg() {
            let j = lemma_page_cases(m, p);
            let x = if j < i {
                j
            } else {
                j + 1
            };
            assert(has_page(kids[x], p));
            if has_page(kids[i], p) {
            }
        }
    }
}

/// A page of the transaction's tree that is marked as dirty is not saved.
proof fn lemma_dirty_type(s: RmdbWTxn, q: Seq<int>)
    requires
        s.inv(),
        leads(s.tree@, q),
        q.len() > 0,
    ensures
        page_type(s.img(), s.lay(), part(s.tree@, q).pg()) as u16 & PAGE_DIRTY == PAGE_DIRTY
            ==> !s.kept(part(s.tree@, q).pg()),
        in_img(s.img(), s.ps(), part(s.tree@, q).pg()),
        s.used(part(s.tree@, q).pg()),
{
    reveal(RmdbWTxn::inv);
    lemma_types();
    let t = s.tree@;
    let n = part(t, q);
    crate::tree::lemma_holds_sub(s.img(), s.lay(), t, q, height(t), true);
    lemma_page_root(n);
    lemma_page_sub(t, q, n.pg());
    let k = if n is Node {
        Role::Node
    } else {
        Role::Leaf
    };
    lemma_has_sub(t, q, n.pg(), k);
    assert(is_index(t, n.pg()));
}

/// The row of pointers without the one to a child.
proof fn lemma_ptrs_less(old: Seq<u32>, kids: Seq<Tree>, i: int)
    requires
        points_to(old, kids),
        0 <= i < kids.len(),
    ensures
        points_to(old.remove(i), kids.remove(i)),
{
    let m = kids.remove(i);
    assert forall|j: int| 0 <= j < m.len() implies old.remove(i)[j] == (#[trigger] m[j]).pg() by {
        if j < i {
            assert(old[j] == kids[j].pg());
        } else {
            assert(old[j + 1] == kids[j + 1].pg());
        }
    }
}

/// What is given up stays so when another page is given up.
proof fn lemma_given_up(n: RmdbWTxn, s: RmdbWTxn, x: u32, t: Tree, q: Seq<int>)
    requires
        n.gave_up(s, x),
        s.cut_off(t, q),
    ensures
        n.cut_off(t, q),
    decreases q.len(),
{
    lemma_among_push(s.deletepages@, x);
    let p = part(t, q).pg();
    if s.deleted(p) {
        assert(n.deleted(p));
    } else {
        assert(n.free(p) == n.free(p) && s.free(p));
    }
    if q.len() > 1 && part(t, q.drop_last()).kids().len() == 1 {
        lemma_given_up(n, s, x, t, q.drop_last());
    }
}

/// With a child less, a tree is no higher.
proof fn lemma_lower(s: RmdbWTxn, w: Seq<int>, i: int)
    requires
        s.inv(),
        leads(s.tree@, w),
        part(s.tree@, w) is Node,
        0 <= i < part(s.tree@, w).kids().len(),
        w.len() == 0 || part(s.tree@, w).kids().len() > 1,
    ensures
        height(
            put(
                s.tree@,
                w,
                Tree::Node {
                    page: part(s.tree@, w).pg(),
                    kids: part(s.tree@, w).kids().remove(i),
                },
            ),
        ) <= height(s.tree@),
{
    let t = s.tree@;
    let par = part(t, w);
    let kids = par.kids();
    let m = Tree::Node { page: par.pg(), kids: kids.remove(i) };
    lemma_basics(s);
    lemma_node(s, w);
    lemma_put_shape(t, w, m);
    if m.kids().len() > 0 {
        let j: int = if i == 0 {
            1
        } else {
            0
        };
        let h = height(t) - w.len() - 1;
        assert(m.kids()[0] == kids[j]);
        assert(holds(s.img(), s.lay(), kids[0], h, false));
        assert(holds(s.img(), s.lay(), kids[j], h, false));
        lemma_height(s.img(), s.lay(), kids[0], h, false);
        lemma_height(s.img(), s.lay(), kids[j], h, false);
    }
}

impl RmdbWTxn {
    /// Whether page `p` is free, or will be when the transaction is committed.
    pub open spec fn given_up(self, p: int) -> bool {
        self.deleted(p) || self.free(p)
    }

    /// Whether the page of the part of `t` to which `q` leads is given up, and with it the
    /// pages of the nodes above, but for the root, that have no other child.
    pub open spec fn cut_off(self, t: Tree, q: Seq<int>) -> bool
        decreases q.len(),
    {
        &&& self.given_up(part(t, q).pg())
        &&& q.len() > 1 && part(t, q.drop_last()).kids().len() == 1 ==> self.cut_off(
            t,
            q.drop_last(),
        )
    }

    /// Whether what was the part `n` of the tree of `s`, but for its root, is out of the
    /// tree, not given up, and as it was.
    spec fn dropped_below(self, s: RmdbWTxn, n: Tree) -> bool {
        forall|p: int| #[trigger]
            has_page(n, p) && p != n.pg() ==> self.loose(p) && !self.deleted(p) && !in_map(
                self.base@,
                p,
            ) && same_page(s.img(), self.img(), self.ps(), p)
    }

    /// Takes the child `cur` out of the node `parent`, to which `w` leads and which can be
    /// written.
    fn unlink(&mut self, parent: u32, cur: u32, Ghost(w): Ghost<Seq<int>>, Ghost(i): Ghost<int>)
        requires
            old(self).inv(),
            leads(old(self).tree@, w),
            part(old(self).tree@, w) is Node,
            part(old(self).tree@, w).pg() == parent,
            0 <= i < part(old(self).tree@, w).kids().len(),
            part(old(self).tree@, w).kids()[i].pg() == cur,
            w.len() == 0 || part(old(self).tree@, w).kids().len() > 1,
            old(self).dirty(parent as int),
            !old(self).kept(parent as int),
        ensures
            final(self).inv(),
            final(self).same_base(*old(self)),
            final(self).np() == old(self).np(),
            entries(final(self).tree@) == before(old(self).tree@, w.push(i)) + behind(
                old(self).tree@,
                w.push(i),
            ),
            final(self).dropped_below(*old(self), part(old(self).tree@, w).kids()[i]),
            final(self).given_up(cur as int),
            height(final(self).tree@) <= height(old(self).tree@),
    {
        let ghost s = *self;
        let ghost t = self.tree@;
        let ghost par = part(t, w);
        let ghost kids = par.kids();
        let ghost kid = kids[i];
        let ghost m = Tree::Node { page: par.pg(), kids: kids.remove(i) };
        let lay: Layout = self.rmdb.layout;
        proof {
            lemma_basics(s);
            lemma_node(s, w);
            lemma_push(t, w, i);
            lemma_dirty_type(s, w.push(i));
            lemma_child_gone(par, i);
        }
        let mut ptrs: Vec<u32> = read_ptrs(&self.rmdb.wr.mmap, lay, parent);
        let ghost old = ptrs@;
        assert(points_to(old, kids));
        let loc: usize = match find_ptr(&ptrs, cur) {
            Some(loc) => loc,
            None => {
                proof {
                    assert(old[i] == kids[i].pg());
                }
                0
            },
        };
        proof {
            assert(old[loc as int] == kids[loc as int].pg());
            if loc != i {
                assert(old[i] == kids[i].pg());
                lemma_kid_pages(par, loc as int, i);
            }
            lemma_ptrs_less(old, kids, i);
        }
        ptrs.remove(loc);
        write_ptrs(&mut self.rmdb.wr.mmap, lay, parent, &ptrs);
        self.tree = Ghost(put(t, w, m));
        let ghost s1 = *self;
        proof {
            lemma_node_page(
                page(self.img(), self.ps(), parent as int),
                lay,
                w.len() == 0,
                ptrs@,
                m.kids(),
            );
            lemma_unlinked(s, s1, w, i);
            assert(same_page(s.img(), s1.img(), s1.ps(), cur as int)) by {
                lemma_page_root(kid);
                assert(has_page(kid, cur as int));
                assert(cur != parent);
            }
            lemma_page_root(kid);
        }
        self.delete_page(cur);
        proof {
            lemma_among_push(s1.deletepages@, cur);
            lemma_lower(s, w, i);
            assert forall|p: int| #[trigger] has_page(kid, p) && p != kid.pg() implies self.loose(p)
                && !self.deleted(p) && !in_map(self.base@, p) && same_page(
                s.img(),
                self.img(),
                self.ps(),
                p,
            ) by {
                assert(s1.loose(p));
                assert(p != parent);
                assert(same_page(s.img(), s1.img(), s1.ps(), p));
            }
        }
    }

    /// Takes the page `leaf` with all that is below it out of the tree, and with it the
    /// nodes above that have no other child.
    fn del_leaf(&mut self, parents: &mut Vec<u32>, leaf: u32, Ghost(q): Ghost<Seq<int>>) -> (r:
        Result<(), RmdbError>)
        requires
            old(self).inv(),
            leads(old(self).tree@, q),
            q.len() > 0,
            part(old(self).tree@, q).pg() == leaf,
            nums(old(parents)@) == trail(old(self).tree@, q.drop_last()),
            room_for(old(self).np(), old(self).ps(), 5 * q.len() as int),
        ensures
            r is Ok,
            final(self).inv(),
            final(self).same_base(*old(self)),
            final(self).np() <= old(self).np() + 9 * q.len(),
            entries(final(self).tree@) == before(old(self).tree@, q) + behind(old(self).tree@, q),
            final(self).dropped_below(*old(self), part(old(self).tree@, q)),
            final(self).cut_off(old(self).tree@, q),
            height(final(self).tree@) <= height(old(self).tree@),
        decreases q.len(),
    {
        let ghost s0 = *self;
        let ghost t = self.tree@;
        let ghost w = q.drop_last();
        let ghost i = q.last();
        let ghost par = part(t, w);
        let ghost kid = part(t, q);
        let ghost par0 = parents@;
        let ps: usize = self.rmdb.layout.pagesize;
        proof {
            lemma_basics(s0);
            lemma_types();
            lemma_pop(t, q);
            lemma_push(t, w, i);
            lemma_node(s0, w);
            lemma_trail_len(t, w);
            lemma_trail_last(t, w);
            assert(nums(parents@).last() == parents@.last());
            lemma_page_root(kid);
            lemma_page_kid(par, i, kid.pg());
        }
        let mut parent: u32 = match parents.pop() {
            Some(parent) => parent,
            None => {
                assert(false);
                return Err(RmdbError::InvalidMetadata);
            },
        };
        proof {
            assert(nums(parents@) =~= nums(par0).drop_last());
            if w.len() > 0 {
                lemma_pop(t, w);
                lemma_push(t, w.drop_last(), w.last());
                assert(trail(t, w).drop_last() =~= trail(t, w.drop_last()));
            }
        }
        let ptype: u16 = get_u16(self.rmdb.wr.mmap.as_slice(), ps, parent, POS_PAGETYPE);
        let nptrs: usize = get_u16(self.rmdb.wr.mmap.as_slice(), ps, parent, NODE_NUMPTRS) as usize;
        if nptrs == 1 && parent != self.rootpage {
            // the last child of its node: the node goes too
            proof {
                assert(w.len() > 0);
                lemma_room(s0.np(), s0.ps(), 5 * q.len() as int, s0.np(), 5 * w.len() as int);
                lemma_dirty_type(s0, q);
            }
            self.del_leaf(parents, parent, Ghost(w))?;
            let ghost s1 = *self;
            proof {
                assert(par.kids().take(0) =~= Seq::empty());
                assert(par.kids().skip(1) =~= Seq::empty());
                assert(entries(s1.tree@) =~= before(t, q) + behind(t, q));
                assert(has_page(par, kid.pg()) && kid.pg() != par.pg());
                assert(same_page(s0.img(), s1.img(), s1.ps(), leaf as int));
                assert(s1.kept(leaf as int) == s0.kept(leaf as int));
            }
            self.delete_page(leaf);
            proof {
                lemma_given_up(*self, s1, leaf, t, w);
                lemma_among_push(s1.deletepages@, leaf);
                assert(self.given_up(leaf as int));
                assert forall|p: int| #[trigger] has_page(kid, p) && p != kid.pg() implies self.loose(
                    p,
                ) && !self.deleted(p) && !in_map(self.base@, p) && same_page(
                    s0.img(),
                    self.img(),
                    self.ps(),
                    p,
                ) by {
                    lemma_page_kid(par, i, p);
                    assert(s1.loose(p));
                }
            }
            return Ok(());
        }
        proof {
            if w.len() > 0 {
                crate::tree::lemma_root_apart(t, w);
            }
        }
        if ptype & PAGE_DIRTY != PAGE_DIRTY {
            parent = self.replace_node(parents, parent, Ghost(w))?;
        } else {
            proof {
                lemma_replaced_self(s0, w);
                lemma_step_self(s0);
            }
        }
        let ghost s1 = *self;
        self.unlink(parent, leaf, Ghost(w), Ghost(i));
        proof {
            lemma_push(s1.tree@, w, i);
            assert forall|p: int| #[trigger] has_page(kid, p) && p != kid.pg() implies self.loose(p)
                && !self.deleted(p) && !in_map(self.base@, p) && same_page(
                s0.img(),
                self.img(),
                self.ps(),
                p,
            ) by {
                lemma_page_kid(par, i, p);
                assert(same_page(s0.img(), s1.img(), s1.ps(), p));
                assert(same_page(s1.img(), self.img(), self.ps(), p));
            }
        }
        Ok(())
    }

    /// Whether a key can be removed: the database can grow by what that may take.
    pub open spec fn can_del(self, key: Seq<u8>) -> bool {
        is_key(entries(self.tree@), key) ==> room_for(
            self.np(),
            self.ps(),
            5 * height(self.tree@),
        )
    }

    /// What removing a key comes to.
    pub open spec fn removed(self, s: RmdbWTxn, key: Seq<u8>, r: Result<(), RmdbError>) -> bool {
        match r {
            Ok(_) => {
                &&& s@.dom().contains(key)
                &&& self.inv()
                &&& self.same_base(s)
                &&& self@ == s@.remove(key)
                &&& self.marks() == s.marks().remove(key)
                &&& self.given_up(leaf_no(s.tree@, key))
                &&& self.cut_off(
                    s.tree@,
                    way(s.tree@, key).push(slot(s.tree@, key)),
                )
                &&& self.np() <= s.np() + 9 * height(s.tree@)
                &&& height(self.tree@) <= height(s.tree@)
            },
            Err(e) => {
                &&& !s@.dom().contains(key)
                &&& e is KeyNotFound
                &&& self == s
            },
        }
    }

    /// Removes a key with its value.
    pub fn del_entry(&mut self, key: &[u8]) -> (r: Result<(), RmdbError>)
        requires
            old(self).inv(),
            old(self).can_del(key@),
        ensures
            final(self).removed(*old(self), key@, r),
            r is Ok <==> old(self)@.dom().contains(key@),
            r is Ok ==> final(self)@ == old(self)@.remove(key@),
            r is Err ==> *final(self) == *old(self),
    {
        let ghost s = *self;
        let ghost t = self.tree@;
        proof {
            lemma_basics(s);
            lemma_depth(s.img(), s.lay(), t, height(t), true);
            lemma_way(s.img(), s.lay(), t, height(t), true, key@);
        }
        if self.rootpage == 0 {
            return Err(RmdbError::KeyNotFound);
        }
        let mut parents: Vec<u32> = Vec::new();
        let result: Result<u32, RmdbError>;
        {
            let fetch = RmdbFetch::new(
                self.rmdb.layout,
                self.rmdb.wr.mmap.as_slice(),
                self.rootpage,
            );
            let fuel: usize = self.rmdb.wr.mmap.len() / self.rmdb.layout.pagesize;
            result = fetch.get_parents_leaf(
                0,
                key,
                &mut parents,
                fuel,
                Ghost(t),
                Ghost(height(t)),
                Ghost(true),
            );
            proof {
                assert(nums(Seq::<u32>::empty()) + passed(t, key@) =~= passed(t, key@));
            }
        }
        let leaf: u32 = match result {
            Ok(leaf) => leaf,
            Err(error) => match error {
                RmdbError::KeyTooSmall => return Err(RmdbError::KeyNotFound),
                RmdbError::KeyTooBig => return Err(RmdbError::KeyNotFound),
                _ => return Err(error),
            },
        };
        let ghost w = way(t, key@);
        let ghost i = slot(t, key@);
        let ghost q = w.push(i);
        proof {
            lemma_push(t, w, i);
            assert(q.drop_last() =~= w);
            lemma_put_entries(t, q, part(t, q));
            let old = part(t, q);
            assert(entries(old) =~= seq![old.entry()]);
            lemma_contents_remove(before(t, q), behind(t, q), old.entry());
        }
        self.del_leaf(&mut parents, leaf, Ghost(q))
    }
}

/// A child was taken out of a node.
proof fn lemma_unlinked(s: RmdbWTxn, n: RmdbWTxn, w: Seq<int>, i: int)
    requires
        s.inv(),
        leads(s.tree@, w),
        part(s.tree@, w) is Node,
        0 <= i < part(s.tree@, w).kids().len(),
        w.len() == 0 || part(s.tree@, w).kids().len() > 1,
        s.dirty(part(s.tree@, w).pg()),
        !s.kept(part(s.tree@, w).pg()),
        n.same_base(s),
        n.np() == s.np(),
        n.img().len() == s.img().len(),
        n.rmdb.wr.freepages == s.rmdb.wr.freepages,
        n.dirtypages == s.dirtypages,
        n.deletepages == s.deletepages,
        n.rootpage == s.rootpage,
        n.tree@ == put(
            s.tree@,
            w,
            Tree::Node {
                page: part(s.tree@, w).pg(),
                kids: part(s.tree@, w).kids().remove(i),
            },
        ),
        node_page(
            page(n.img(), n.ps(), part(s.tree@, w).pg()),
            n.lay(),
            w.len() == 0,
            part(s.tree@, w).kids().remove(i),
        ),
        forall|p: int|
            p != part(s.tree@, w).pg() ==> #[trigger] same_page(s.img(), n.img(), n.ps(), p),
        forall|p: int|
            in_img(s.img(), s.ps(), p) == #[trigger] in_img(n.img(), n.ps(), p),
    ensures
        n.inv(),
        entries(n.tree@) == before(s.tree@, w.push(i)) + behind(s.tree@, w.push(i)),
        forall|p: int| #[trigger]
            has_page(part(s.tree@, w).kids()[i], p) ==> n.loose(p) && !n.deleted(p) && !in_map(
                n.base@,
                p,
            ) && p != part(s.tree@, w).pg(),
{
    let t = s.tree@;
    let par = part(t, w);
    let kids = par.kids();
    let kid = kids[i];
    let m = Tree::Node { page: par.pg(), kids: kids.remove(i) };
    lemma_basics(s);
    lemma_node(s, w);
    lemma_child_gone(par, i);
    lemma_push(t, w, i);
    assert forall|j: int| 0 <= j < m.kids().len() implies holds(
        s.img(),
        s.lay(),
        #[trigger] m.kids()[j],
        height(t) - w.len() - 1,
        false,
    ) by {
        if j < i {
            assert(m.kids()[j] == kids[j]);
        } else {
            assert(m.kids()[j] == kids[j + 1]);
        }
    }
    lemma_put_entries(t, w, m);
    lemma_put_entries(t, w.push(i), kid);
    let a = before(t, w.push(i));
    let b = behind(t, w.push(i));
    assert(entries(n.tree@) =~= a + b);
    lemma_sorted_parts(a, entries(kid), b);
    assert(sorted(a + b)) by {
        let c = a + b;
        assert forall|x: int, y: int| 0 <= x < y < c.len() implies crate::order::lt(
            #[trigger] c[x].0,
            #[trigger] c[y].0,
        ) by {
            if y < a.len() {
                assert(c[x] == a[x] && c[y] == a[y]);
            } else if x < a.len() {
                assert(c[x] == a[x] && c[y] == b[y - a.len()]);
            } else {
                assert(c[x] == b[x - a.len()] && c[y] == b[y - a.len()]);
            }
        }
    }
    assert forall|p: int, k: Role| #[trigger] plays(m, p, k) && p != m.pg() implies plays(par, p, k)
        || s.new_page(p, k) by {}
    lemma_edit(s, n, w, m);
    assert forall|p: int| #[trigger] has_page(kid, p) implies n.loose(p) && !n.deleted(p)
        && !in_map(n.base@, p) && p != par.pg() by {
        lemma_page_kid(par, i, p);
        if has_page(m, p) {
        }
    }
}

} // verus!
