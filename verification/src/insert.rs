//! Adding and replacing keys.
use crate::bytes::{get_u16, in_img, page, same_page};
use crate::contents::{contents, lemma_contents_insert, lemma_contents_update};
use crate::cow::{
    lemma_child_put, lemma_childptr, lemma_edit, lemma_node, lemma_ptrs, lemma_replaced_self,
    lemma_room, lemma_step_self, ptrs,
};
use crate::error::RmdbError;
use crate::fetch::{leaf_no, leaf_of, lemma_leaf_no, lemma_trail_last, lemma_types, nums, RmdbFetch};
use crate::layout::{topptr, Layout, NODE_FIRSTPTR, NODE_NUMPTRS, PAGE_DIRTY, POS_PAGETYPE, PTRSZ};
use crate::node::{lemma_node_page, points_to, read_ptrs, write_ptrs};
use crate::order::{lemma_lt_irreflexive, lemma_lt_total, lemma_lt_transitive, lt, rank, Rank};
use crate::path::{
    all_before, all_behind, below, is_key, last_node, lemma_all_before, lemma_all_behind,
    lemma_below, lemma_kid_sorted, lemma_kids_apart, lemma_no_gaps, lemma_not_empty, lemma_outside,
    lemma_pop, lemma_push, lemma_row, lemma_sorted_parts, lemma_trail_len, lemma_way, no_gaps,
    reaches, slot, too_big, too_small, trail, way,
};
use crate::saved::in_map;
use crate::split::{beside, left_half, right_half};
use crate::store::room_for;
use crate::tree::{
    before, behind, bushy, distinct, entries, entries_of, has_page, height, holds, leads,
    lemma_bushy_part, lemma_entries_at, lemma_entries_join, lemma_has_kid, lemma_holds_frame,
    lemma_page_cases, lemma_page_kid, lemma_page_root, lemma_page_sub, lemma_put_entries,
    lemma_put_path, lemma_put_shape, node_page, part, plays, put, sorted, Entry, Role, Tree,
};
use crate::wtxn::{lemma_basics, RmdbWTxn};
use vstd::prelude::*;

verus! {

impl RmdbWTxn {
    /// Whether the node in which a leaf for the key came to stand is the one that a search for
    /// the key came to, with one child more, where that had room for it, and else one of its
    /// halves with one child more.
    pub open spec fn filled(self, s: RmdbWTxn, key: Seq<u8>) -> bool {
        let n = last_node(s.tree@, key).kids().len() as int;
        let m = last_node(self.tree@, key).kids().len() as int;
        if topptr(n + 1) <= s.lay().payload {
            m == n + 1 && height(self.tree@) == height(s.tree@)
        } else {
            m == n / 2 + 1 || m == n - n / 2 + 1
        }
    }

    /// Whether the leaf is written, in pages that the transaction made, and not yet in the
    /// tree.
    pub open spec fn pending(self, leaf: Tree) -> bool {
        &&& leaf is Leaf
        &&& holds(self.img(), self.lay(), leaf, 0, false)
        &&& distinct(leaf)
        &&& forall|p: int, k: Role| #[trigger] plays(leaf, p, k) ==> self.new_page(p, k)
    }

    /// Puts a leaf in the place of the one that has its key.
    pub(crate) fn replace_leaf(&mut self, curchild: u32, newchild: u32, Ghost(leaf): Ghost<Tree>) -> (r: Result<
        (),
        RmdbError,
    >)
        requires
            old(self).inv(),
            old(self).pending(leaf),
            leaf.pg() == newchild,
            is_key(entries(old(self).tree@), leaf->key),
            curchild == leaf_no(old(self).tree@, leaf->key),
            room_for(old(self).np(), old(self).ps(), 5 * height(old(self).tree@)),
        ensures
            r is Ok,
            final(self).inv(),
            final(self).same_base(*old(self)),
            final(self)@ == old(self)@.insert(leaf->key, leaf->val),
            final(self).marks() == old(self).marks().insert(leaf->key, leaf.entry().2),
            final(self).np() <= old(self).np() + 9 * height(old(self).tree@),
            final(self).deletepages@.len() > 0,
            final(self).deletepages@.last() == curchild,
            leaf_of(final(self).tree@, leaf->key) == leaf,
            page(final(self).img(), final(self).ps(), newchild as int) == page(
                old(self).img(),
                old(self).ps(),
                newchild as int,
            ),
            height(final(self).tree@) == height(old(self).tree@),
            bushy(old(self).tree@) ==> bushy(final(self).tree@),
    {
        let ghost s0 = *self;
        let ghost t = self.tree@;
        let ghost wkey = leaf->key;
        let ghost w = way(t, wkey);
        let ghost i = slot(t, wkey);
        let ghost n = last_node(t, wkey);
        proof {
            lemma_basics(s0);
            lemma_way(s0.img(), s0.lay(), t, height(t), true, wkey);
            lemma_node(s0, w);
            lemma_types();
            lemma_trail_last(t, w);
            lemma_trail_len(t, w);
        }
        let mut parents: Vec<u32>;
        {
            let fetch = RmdbFetch::new(
                self.rmdb.layout,
                self.rmdb.wr.mmap.as_slice(),
                self.rootpage,
            );
            let key: &[u8] = fetch.get_leaf_key(curchild, Ghost(n.kids()[i]), Ghost(0int))?;
            parents = fetch.get_parents(key, Ghost(t))?;
        }
        let ghost par0 = parents@;
        assert(nums(parents@).last() == parents@.last());
        let mut parent: u32 = match parents.pop() {
            Some(parent) => parent,
            None => {
                assert(false);
                return Err(RmdbError::InvalidMetadata);
            },
        };
        proof {
            assert(nums(parents@) =~= nums(par0).drop_last());
            if w.len() > 0 {
                lemma_pop(t, w);
                lemma_push(t, w.drop_last(), w.last());
                assert(trail(t, w).drop_last() =~= trail(t, w.drop_last()));
            }
        }
        let ps: usize = self.rmdb.layout.pagesize;
        let ptype: u16 = get_u16(self.rmdb.wr.mmap.as_slice(), ps, parent, POS_PAGETYPE);
        if ptype & PAGE_DIRTY == 0 {
            parent = self.replace_node(&mut parents, parent, Ghost(w))?;
        } else {
            proof {
                lemma_replaced_self(s0, w);
                lemma_step_self(s0);
            }
        }
        let ghost s1 = *self;
        proof {
            lemma_pending_step(s0, s1, leaf);
            lemma_pending_page(s0, leaf);
            assert(same_page(s0.img(), s1.img(), s1.ps(), leaf.pg()));
        }
        self.link_leaf(parent, curchild, newchild, Ghost(w), Ghost(i), Ghost(leaf));
        proof {
            lemma_entries_at(n.kids(), i);
            lemma_put_entries(t, w, n);
            let a = before(t, w) + entries_of(n.kids().take(i));
            let b = entries_of(n.kids().skip(i + 1)) + behind(t, w);
            let old = n.kids()[i];
            assert(entries(t) =~= a + seq![old.entry()] + b);
            lemma_contents_update(a, b, old.entry(), leaf.entry());
        }
        Ok(())
    }

    /// Puts a leaf in the place of the leaf `curchild`, the child `i` of the node `parent`
    /// to which `w` leads.
    fn link_leaf(
        &mut self,
        parent: u32,
        curchild: u32,
        newchild: u32,
        Ghost(w): Ghost<Seq<int>>,
        Ghost(i): Ghost<int>,
        Ghost(leaf): Ghost<Tree>,
    )
        requires
            old(self).inv(),
            old(self).pending(leaf),
            leaf.pg() == newchild,
            leads(old(self).tree@, w),
            part(old(self).tree@, w) is Node,
            part(old(self).tree@, w).pg() == parent,
            0 <= i < part(old(self).tree@, w).kids().len(),
            part(old(self).tree@, w).kids()[i] is Leaf,
            part(old(self).tree@, w).kids()[i].pg() == curchild,
            part(old(self).tree@, w).kids()[i]->key == leaf->key,
            old(self).dirty(parent as int),
            !old(self).kept(parent as int),
        ensures
            final(self).inv(),
            final(self).same_base(*old(self)),
            final(self).np() == old(self).np(),
            entries(final(self).tree@) == before(old(self).tree@, w) + entries_of(
                part(old(self).tree@, w).kids().take(i),
            ) + seq![leaf.entry()] + (entries_of(
                part(old(self).tree@, w).kids().skip(i + 1),
            ) + behind(old(self).tree@, w)),
            final(self).deletepages@ == old(self).deletepages@.push(curchild),
            page(final(self).img(), final(self).ps(), newchild as int) == page(
                old(self).img(),
                old(self).ps(),
                newchild as int,
            ),
            height(final(self).tree@) == height(old(self).tree@),
            bushy(old(self).tree@) ==> bushy(final(self).tree@),
            leaf_of(final(self).tree@, leaf->key) == leaf,
    {
        let ghost s1 = *self;
        let ghost t = self.tree@;
        let ghost par = part(t, w);
        let ghost m = Tree::Node { page: par.pg(), kids: par.kids().update(i, leaf) };
        proof {
            lemma_types();
            lemma_basics(s1);
            lemma_node(s1, w);
            lemma_pending_apart(s1, w, leaf);
            lemma_child_put(par, i, leaf);
        }
        proof {
            lemma_ptrs(page(s1.img(), s1.ps(), parent as int), s1.lay(), w.len() == 0, par.kids());
            assert(ptrs(page(s1.img(), s1.ps(), parent as int))[i] == curchild);
        }
        match self.replace_childptr(parent, curchild, newchild) {
            Ok(_) => {},
            Err(_) => {
                assert(false);
            },
        }
        proof {
            lemma_childptr(
                page(s1.img(), s1.ps(), parent as int),
                page(self.img(), self.ps(), parent as int),
                s1.lay(),
                w.len() == 0,
                par,
                i,
                newchild,
            );
        }
        self.tree = Ghost(put(t, w, m));
        let ghost s2 = *self;
        proof {
            lemma_replaced_leaf(s1, s2, w, i, leaf);
            assert(same_page(s1.img(), s2.img(), s2.ps(), curchild as int));
            let old = par.kids()[i];
            assert(holds(s1.img(), s1.lay(), old, height(t) - w.len() - 1, false));
        }
        self.delete_page(curchild);
        proof {
            let u = self.tree@;
            lemma_basics(*self);
            lemma_put_path(t, w, m);
            lemma_push(u, w, i);
            lemma_leaf_no(self.img(), self.lay(), u, height(u), true, w.push(i), leaf->key);
            lemma_pending_page(s1, leaf);
            assert(newchild != parent);
            assert(same_page(s1.img(), s2.img(), s2.ps(), newchild as int));
        }
    }
}

/// A leaf that is not yet in the tree is in a page that the transaction made, and that can be
/// read.
proof fn lemma_pending_page(s: RmdbWTxn, leaf: Tree)
    requires
        s.pending(leaf),
    ensures
        s.loose(leaf.pg()),
        !s.used(leaf.pg()),
        in_img(s.img(), s.ps(), leaf.pg()),
{
    assert(plays(leaf, leaf.pg(), Role::Leaf));
    assert(s.new_page(leaf.pg(), Role::Leaf));
}

/// What is pending stays so over a step.
pub(crate) proof fn lemma_pending_step(s0: RmdbWTxn, s1: RmdbWTxn, leaf: Tree)
    requires
        s0.pending(leaf),
        s1.step(s0),
        s0.lay().sane(),
    ensures
        s1.pending(leaf),
{
    assert forall|p: int, k: Role| #[trigger] plays(leaf, p, k) implies s1.new_page(p, k) by {
        assert(s0.new_page(p, k));
        assert(s0.loose(p));
        assert(s1.kept(p) == s0.kept(p));
    }
    assert forall|p: int| #[trigger] has_page(leaf, p) implies same_page(
        s0.img(),
        s1.img(),
        s1.ps(),
        p,
    ) by {
        if plays(leaf, p, Role::Node) {
            assert(s0.loose(p));
        } else if plays(leaf, p, Role::Leaf) {
            assert(s0.loose(p));
        } else {
            assert(plays(leaf, p, Role::Data));
            assert(s0.loose(p));
        }
    }
    lemma_holds_frame(s0.img(), s1.img(), s0.lay(), leaf, 0, false);
}

/// A pending leaf has no page in common with the tree.
pub(crate) proof fn lemma_pending_apart(s: RmdbWTxn, w: Seq<int>, leaf: Tree)
    requires
        s.pending(leaf),
        leads(s.tree@, w),
    ensures
        forall|p: int| #[trigger] has_page(leaf, p) ==> !has_page(part(s.tree@, w), p) && s.loose(p),
{
    assert forall|p: int| #[trigger] has_page(leaf, p) implies !has_page(part(s.tree@, w), p)
        && s.loose(p) by {
        if plays(leaf, p, Role::Node) {
            assert(s.loose(p));
        } else if plays(leaf, p, Role::Leaf) {
            assert(s.loose(p));
        } else {
            assert(plays(leaf, p, Role::Data));
            assert(s.loose(p));
        }
        if has_page(part(s.tree@, w), p) {
            lemma_page_sub(s.tree@, w, p);
            assert(s.used(p));
        }
    }
}

/// A leaf took the place of another with its key.
proof fn lemma_replaced_leaf(s: RmdbWTxn, n: RmdbWTxn, w: Seq<int>, i: int, leaf: Tree)
    requires
        s.inv(),
        s.pending(leaf),
        leads(s.tree@, w),
        part(s.tree@, w) is Node,
        0 <= i < part(s.tree@, w).kids().len(),
        part(s.tree@, w).kids()[i] is Leaf,
        part(s.tree@, w).kids()[i]->key == leaf->key,
        s.dirty(part(s.tree@, w).pg()),
        !s.kept(part(s.tree@, w).pg()),
        n.same_base(s),
        n.np() == s.np(),
        n.img().len() == s.img().len(),
        n.rmdb.wr.freepages == s.rmdb.wr.freepages,
        n.dirtypages == s.dirtypages,
        n.deletepages == s.deletepages,
        n.rootpage == s.rootpage,
        n.tree@ == put(
            s.tree@,
            w,
            Tree::Node {
                page: part(s.tree@, w).pg(),
                kids: part(s.tree@, w).kids().update(i, leaf),
            },
        ),
        crate::tree::node_page(
            page(n.img(), n.ps(), part(s.tree@, w).pg()),
            n.lay(),
            w.len() == 0,
            part(s.tree@, w).kids().update(i, leaf),
        ),
        forall|p: int|
            p != part(s.tree@, w).pg() ==> #[trigger] same_page(s.img(), n.img(), n.ps(), p),
        forall|p: int|
            in_img(s.img(), s.ps(), p) == #[trigger] in_img(n.img(), n.ps(), p),
    ensures
        n.inv(),
        entries(n.tree@) == before(s.tree@, w) + entries_of(part(s.tree@, w).kids().take(i)) + seq![
            leaf.entry(),
        ] + (entries_of(part(s.tree@, w).kids().skip(i + 1)) + behind(s.tree@, w)),
        n.loose(part(s.tree@, w).kids()[i].pg()),
        !n.deleted(part(s.tree@, w).kids()[i].pg()),
        !in_map(n.base@, part(s.tree@, w).kids()[i].pg()),
        height(n.tree@) == height(s.tree@),
        bushy(s.tree@) ==> bushy(n.tree@),
{
    let t = s.tree@;
    let par = part(t, w);
    let kids = par.kids();
    let old = kids[i];
    let m = Tree::Node { page: par.pg(), kids: kids.update(i, leaf) };
    lemma_basics(s);
    lemma_node(s, w);
    lemma_pending_apart(s, w, leaf);
    lemma_child_put(par, i, leaf);
    let h = height(t) - w.len();
    assert(holds(s.img(), s.lay(), old, h - 1, false));
    assert(h == 1);
    assert forall|j: int| 0 <= j < m.kids().len() implies holds(
        s.img(),
        s.lay(),
        #[trigger] m.kids()[j],
        height(t) - w.len() - 1,
        false,
    ) by {
        if j != i {
            assert(m.kids()[j] == kids[j]);
        }
    }
    lemma_put_entries(t, w, m);
    lemma_entries_at(kids, i);
    let a = before(t, w) + entries_of(kids.take(i));
    let b = entries_of(kids.skip(i + 1)) + behind(t, w);
    assert(entries(leaf) =~= seq![leaf.entry()]);
    assert(entries(old) =~= seq![old.entry()]);
    assert(entries(t) =~= a + seq![old.entry()] + b);
    assert(entries(n.tree@) =~= a + seq![leaf.entry()] + b);
    lemma_contents_update(a, b, old.entry(), leaf.entry());
    assert forall|p: int, k: Role| #[trigger] plays(m, p, k) && p != m.pg() implies plays(par, p, k)
        || s.new_page(p, k) by {}
    lemma_edit(s, n, w, m);
    assert(holds(s.img(), s.lay(), kids[0], 0, false));
    assert(holds(s.img(), s.lay(), m.kids()[0], 0, false));
    lemma_put_shape(t, w, m);
    if bushy(t) {
        lemma_bushy_part(t, w);
        assert forall|j: int| 0 <= j < m.kids().len() implies bushy(#[trigger] m.kids()[j]) by {
            if j != i {
                assert(bushy(kids[j]));
            }
        }
        assert(bushy(m));
    }
    lemma_page_root(old);
    lemma_page_kid(par, i, old.pg());
    assert(!has_page(m, old.pg())) by {
        if has_page(leaf, old.pg()) {
        }
    }
}

/// A node with one child more.
pub(crate) proof fn lemma_child_insert(par: Tree, i: int, c: Tree)
    requires
        par is Node,
        distinct(par),
        0 <= i <= par.kids().len(),
        distinct(c),
        forall|p: int| #[trigger] has_page(c, p) ==> !has_page(par, p),
    ensures
        ({
            let m = Tree::Node { page: par.pg(), kids: par.kids().insert(i, c) };
            &&& distinct(m)
            &&& entries(m) == entries_of(par.kids().take(i)) + entries(c) + entries_of(
                par.kids().skip(i),
            )
            &&& entries(par) == entries_of(par.kids().take(i)) + entries_of(par.kids().skip(i))
            &&& forall|p: int, k: Role| #[trigger] plays(m, p, k) ==> plays(par, p, k) || plays(c, p, k)
            &&& forall|p: int| #[trigger] has_page(m, p) <==> has_page(c, p) || has_page(par, p)
        }),
{
    let kids = par.kids();
    let m = Tree::Node { page: par.pg(), kids: kids.insert(i, c) };
    let ms = m.kids();
    assert forall|j: int| 0 <= j < i implies #[trigger] ms[j] == kids[j] by {}
    assert forall|j: int| i < j < ms.len() implies #[trigger] ms[j] == kids[j - 1] by {}
    assert(ms[i] == c);
    lemma_page_root(par);
    assert(distinct(m)) by {
        assert forall|j: int| 0 <= j < ms.len() implies distinct(#[trigger] ms[j]) && !has_page(
            ms[j],
            m.pg(),
        ) by {
            if j < i {
                assert(distinct(kids[j]));
            } else if j > i {
                assert(distinct(kids[j - 1]));
            } else if has_page(c, par.pg()) {
            }
        }
        assert forall|a: int, b: int, p: int|
            #![trigger has_page(ms[a], p), has_page(ms[b], p)]
            0 <= a < ms.len() && 0 <= b < ms.len() && a != b && has_page(ms[a], p) implies !has_page(
            ms[b],
            p,
        ) by {
            if has_page(ms[b], p) {
                let x = if a < i {
                    a
                } else {
                    a - 1
                };
                let y = if b < i {
                    b
                } else {
                    b - 1
                };
                if a != i {
                    assert(has_page(kids[x], p));
                    lemma_page_kid(par, x, p);
                }
                if b != i {
                    assert(has_page(kids[y], p));
                    lemma_page_kid(par, y, p);
                }
            }
        }
    }
    lemma_entries_at(ms, i);
    assert(ms.take(i) =~= kids.take(i));
    assert(ms.skip(i + 1) =~= kids.skip(i));
    lemma_entries_join(kids.take(i), kids.skip(i));
    assert(kids.take(i) + kids.skip(i) =~= kids);
    assert forall|p: int, k: Role| #[trigger] plays(m, p, k) implies plays(par, p, k) || plays(
        c,
        p,
        k,
    ) by {
        if !(k is Node && p == m.pg()) {
            let j = choose|j: int| 0 <= j < ms.len() && plays(#[trigger] ms[j], p, k);
            if j < i {
                lemma_has_kid(par, j, p, k);
            } else if j > i {
                lemma_has_kid(par, j - 1, p, k);
            }
        }
    }
    assert forall|p: int| #[trigger] has_page(m, p) <==> has_page(c, p) || has_page(par, p) by {
        if has_page(m, p) && p != m.pg() {
            let j = lemma_page_cases(m, p);
            if j < i {
                lemma_page_kid(par, j, p);
            } else if j > i {
                lemma_page_kid(par, j - 1, p);
            }
        }
        if has_page(c, p) {
            lemma_page_kid(m, i, p);
        }
        if has_page(par, p) && p != par.pg() {
            let j = lemma_page_cases(par, p);
            if j < i {
                assert(ms[j] == kids[j]);
                lemma_page_kid(m, j, p);
            } else {
                assert(ms[j + 1] == kids[j]);
                lemma_page_kid(m, j + 1, p);
            }
        }
        lemma_page_root(m);
    }
}

/// A leaf came in between others.
proof fn lemma_added_leaf(s: RmdbWTxn, n: RmdbWTxn, w: Seq<int>, i: int, leaf: Tree)
    requires
        s.inv(),
        s.pending(leaf),
        leads(s.tree@, w),
        part(s.tree@, w) is Node,
        height(s.tree@) - w.len() == 1,
        0 <= i <= part(s.tree@, w).kids().len(),
        all_before(before(s.tree@, w), leaf->key),
        all_behind(behind(s.tree@, w), leaf->key),
        forall|j: int|
            0 <= j < i ==> too_big(entries(#[trigger] part(s.tree@, w).kids()[j]), leaf->key),
        forall|j: int|
            i <= j < part(s.tree@, w).kids().len() ==> too_small(
                entries(#[trigger] part(s.tree@, w).kids()[j]),
                leaf->key,
            ),
        s.dirty(part(s.tree@, w).pg()),
        !s.kept(part(s.tree@, w).pg()),
        n.same_base(s),
        n.np() == s.np(),
        n.img().len() == s.img().len(),
        n.rmdb.wr.freepages == s.rmdb.wr.freepages,
        n.dirtypages == s.dirtypages,
        n.deletepages == s.deletepages,
        n.rootpage == s.rootpage,
        n.tree@ == put(
            s.tree@,
            w,
            Tree::Node {
                page: part(s.tree@, w).pg(),
                kids: part(s.tree@, w).kids().insert(i, leaf),
            },
        ),
        node_page(
            page(n.img(), n.ps(), part(s.tree@, w).pg()),
            n.lay(),
            w.len() == 0,
            part(s.tree@, w).kids().insert(i, leaf),
        ),
        forall|p: int|
            p != part(s.tree@, w).pg() ==> #[trigger] same_page(s.img(), n.img(), n.ps(), p),
        forall|p: int|
            in_img(s.img(), s.ps(), p) == #[trigger] in_img(n.img(), n.ps(), p),
    ensures
        n.inv(),
        contents(entries(n.tree@)) == contents(entries(s.tree@)).insert(leaf->key, leaf->val),
        n.marks() == s.marks().insert(leaf->key, leaf.entry().2),
        leaf_of(n.tree@, leaf->key) == leaf,
        last_node(n.tree@, leaf->key).kids().len() == part(s.tree@, w).kids().len() + 1,
        height(n.tree@) == height(s.tree@),
        bushy(s.tree@) ==> bushy(n.tree@),
{
    let t = s.tree@;
    let par = part(t, w);
    let kids = par.kids();
    let m = Tree::Node { page: par.pg(), kids: kids.insert(i, leaf) };
    lemma_basics(s);
    lemma_node(s, w);
    lemma_pending_apart(s, w, leaf);
    lemma_child_insert(par, i, leaf);
    assert forall|j: int| 0 <= j < m.kids().len() implies holds(
        s.img(),
        s.lay(),
        #[trigger] m.kids()[j],
        height(t) - w.len() - 1,
        false,
    ) by {
        if j < i {
            assert(m.kids()[j] == kids[j]);
        } else if j > i {
            assert(m.kids()[j] == kids[j - 1]);
        }
    }
    lemma_put_entries(t, w, m);
    let a = before(t, w) + entries_of(kids.take(i));
    let b = entries_of(kids.skip(i)) + behind(t, w);
    assert(entries(leaf) =~= seq![leaf.entry()]);
    assert(entries(t) =~= a + b);
    assert(entries(n.tree@) =~= a + seq![leaf.entry()] + b);
    lemma_sorted_parts(before(t, w), entries(par), behind(t, w));
    lemma_all_before(kids, i, leaf->key);
    lemma_all_behind(kids, i, leaf->key);
    assert(all_before(a, leaf->key)) by {
        let x = before(t, w);
        let y = entries_of(kids.take(i));
        assert forall|j: int| 0 <= j < a.len() implies lt(#[trigger] a[j].0, leaf->key) by {
            if j < x.len() {
                assert(a[j] == x[j]);
            } else {
                assert(a[j] == y[j - x.len()]);
            }
        }
    }
    assert(all_behind(b, leaf->key)) by {
        let x = entries_of(kids.skip(i));
        let y = behind(t, w);
        assert forall|j: int| 0 <= j < b.len() implies lt(leaf->key, #[trigger] b[j].0) by {
            if j < x.len() {
                assert(b[j] == x[j]);
            } else {
                assert(b[j] == y[j - x.len()]);
            }
        }
    }
    lemma_contents_insert(a, b, leaf.entry());
    assert forall|p: int, k: Role| #[trigger] plays(m, p, k) && p != m.pg() implies plays(par, p, k)
        || s.new_page(p, k) by {}
    lemma_edit(s, n, w, m);
    lemma_added_shape(s, n, w, i, leaf);
}

/// The leaf that came in is where its key is found, and the tree is as high as before.
proof fn lemma_added_shape(s: RmdbWTxn, n: RmdbWTxn, w: Seq<int>, i: int, leaf: Tree)
    requires
        s.inv(),
        n.inv(),
        leaf is Leaf,
        leads(s.tree@, w),
        part(s.tree@, w) is Node,
        height(s.tree@) - w.len() == 1,
        0 <= i <= part(s.tree@, w).kids().len(),
        n.tree@ == put(
            s.tree@,
            w,
            Tree::Node {
                page: part(s.tree@, w).pg(),
                kids: part(s.tree@, w).kids().insert(i, leaf),
            },
        ),
    ensures
        leaf_of(n.tree@, leaf->key) == leaf,
        last_node(n.tree@, leaf->key).kids().len() == part(s.tree@, w).kids().len() + 1,
        height(n.tree@) == height(s.tree@),
        bushy(s.tree@) ==> bushy(n.tree@),
{
    let t = s.tree@;
    let u = n.tree@;
    let par = part(t, w);
    let kids = par.kids();
    let m = Tree::Node { page: par.pg(), kids: kids.insert(i, leaf) };
    lemma_node(s, w);
    lemma_put_path(t, w, m);
    lemma_push(u, w, i);
    lemma_basics(n);
    if kids.len() > 0 {
        assert(holds(s.img(), s.lay(), kids[0], 0, false));
    }
    assert forall|j: int| 0 <= j < m.kids().len() implies #[trigger] m.kids()[j] is Leaf by {
        if j < i {
            assert(holds(s.img(), s.lay(), kids[j], 0, false));
        } else if j > i {
            assert(m.kids()[j] == kids[j - 1]);
            assert(holds(s.img(), s.lay(), kids[j - 1], 0, false));
        }
    }
    assert(m.kids()[0] is Leaf);
    assert(height(m.kids()[0]) == 0 && height(m) == 1);
    if kids.len() > 0 {
        assert(height(kids[0]) == 0);
    }
    assert(height(par) == 1);
    lemma_put_shape(t, w, m);
    assert(bushy(m)) by {
        assert forall|j: int| 0 <= j < m.kids().len() implies bushy(#[trigger] m.kids()[j]) by {}
    }
    lemma_leaf_no(n.img(), n.lay(), u, height(u), true, w.push(i), leaf->key);
    assert(w.push(i).drop_last() =~= w);
}

impl RmdbWTxn {
    /// Puts a leaf among the children of the node `parent`, to which `w` leads and which
    /// has room for it and can be written.
    fn insert_leaf(
        &mut self,
        parent: u32,
        leaf: u32,
        key: &[u8],
        Ghost(w): Ghost<Seq<int>>,
        Ghost(l): Ghost<Tree>,
    ) -> (r: Result<(), RmdbError>)
        requires
            old(self).inv(),
            old(self).pending(l),
            l.pg() == leaf,
            l->key == key@,
            leads(old(self).tree@, w),
            part(old(self).tree@, w) is Node,
            part(old(self).tree@, w).pg() == parent,
            height(old(self).tree@) - w.len() == 1,
            all_before(before(old(self).tree@, w), key@),
            all_behind(behind(old(self).tree@, w), key@),
            topptr(part(old(self).tree@, w).kids().len() as int + 1) <= old(self).lay().payload,
            old(self).dirty(parent as int),
            !old(self).kept(parent as int),
        ensures
            final(self).inv(),
            final(self).same_base(*old(self)),
            final(self).np() == old(self).np(),
            page(final(self).img(), final(self).ps(), leaf as int) == page(
                old(self).img(),
                old(self).ps(),
                leaf as int,
            ),
            height(final(self).tree@) == height(old(self).tree@),
            bushy(old(self).tree@) ==> bushy(final(self).tree@),
            match r {
                Ok(_) => {
                    &&& !is_key(entries(old(self).tree@), key@)
                    &&& final(self)@ == old(self)@.insert(l->key, l->val)
                    &&& final(self).marks() == old(self).marks().insert(l->key, l.entry().2)
                    &&& leaf_of(final(self).tree@, key@) == l
                    &&& leaf_no(final(self).tree@, key@) == leaf
                    &&& last_node(final(self).tree@, key@).kids().len() == part(
                        old(self).tree@,
                        w,
                    ).kids().len() + 1
                },
                Err(e) => {
                    &&& is_key(entries(old(self).tree@), key@)
                    &&& e is InvalidMetadata
                    &&& *final(self) == *old(self)
                },
            },
    {
        let ghost s = *self;
        let ghost t = self.tree@;
        let ghost par = part(t, w);
        let ghost kids = par.kids();
        let lay: Layout = self.rmdb.layout;
        proof {
            lemma_basics(s);
            lemma_node(s, w);
            lemma_put_entries(t, w, par);
            lemma_sorted_parts(before(t, w), entries(par), behind(t, w));
            lemma_no_gaps(s.img(), s.lay(), par, height(t) - w.len(), w.len() == 0);
        }
        let mut ptrs: Vec<u32> = read_ptrs(&self.rmdb.wr.mmap, lay, parent);
        let ghost old = ptrs@;
        assert(points_to(old, kids));
        let nptrs: usize = ptrs.len();
        let mut idx: usize = nptrs;
        {
            let fetch = RmdbFetch::new(lay, self.rmdb.wr.mmap.as_slice(), self.rootpage);
            let mut found: bool = false;
            while idx > 0 && !found
                invariant
                    fetch.lay == lay,
                    fetch.mmap@ == s.img(),
                    s.inv(),
                    lay == s.lay(),
                    lay.ok(),
                    t == s.tree@,
                    par == part(t, w),
                    par is Node,
                    kids == par.kids(),
                    leads(t, w),
                    height(t) - w.len() == 1,
                    holds(s.img(), s.lay(), par, 1, w.len() == 0),
                    entries(t) == before(t, w) + entries(par) + behind(t, w),
                    sorted(entries(par)),
                    no_gaps(kids),
                    *self == s,
                    ptrs@ == old,
                    points_to(old, kids),
                    nptrs == ptrs.len(),
                    idx <= nptrs,
                    forall|j: int|
                        idx <= j < kids.len() ==> too_small(
                            entries(#[trigger] kids[j]),
                            key@,
                        ),
                    found ==> forall|j: int|
                        0 <= j < idx ==> too_big(entries(#[trigger] kids[j]), key@),
                decreases
                        idx,
                        (if found {
                            0int
                        } else {
                            1int
                        }),
            {
                let n: usize = idx - 1;
                let ghost k = kids[n as int];
                proof {
                    assert(old[n as int] == k.pg());
                    assert(holds(s.img(), s.lay(), k, 0, false));
                    assert(k is Leaf);
                    assert(entries(k) =~= seq![k.entry()]);
                    lemma_entries_at(kids, n as int);
                }
                let pkey: &[u8] = match fetch.get_leaf_key(ptrs[n], Ghost(k), Ghost(0int)) {
                    Ok(pkey) => pkey,
                    Err(e) => {
                        assert(false);
                        return Err(e);
                    },
                };
                match rank(key, pkey) {
                    Rank::Same => {
                        proof {
                            let at = before(t, w).len() + entries_of(kids.take(n as int)).len();
                            assert(entries(k)[0].0 == key@);
                            assert(entries(par)[entries_of(kids.take(n as int)).len() as int]
                                == entries(k)[0]);
                            assert(entries(t)[at as int].0 == key@);
                        }
                        return Err(RmdbError::InvalidMetadata);
                    },
                    Rank::Before => {
                        idx = n;
                    },
                    Rank::Behind => {
                        found = true;
                        proof {
                            assert forall|j: int| 0 <= j < idx implies too_big(
                                entries(#[trigger] kids[j]),
                                key@,
                            ) by {
                                if j < n {
                                    let x = entries(kids[j]).len() - 1;
                                    lemma_kids_apart(kids, j, n as int, x, 0);
                                    lemma_lt_transitive(entries(kids[j])[x].0, k->key, key@);
                                }
                            }
                        }
                    },
                }
            }
        }
        ptrs.insert(idx, leaf);
        proof {
            lemma_not_among(t, w, idx as int, key@);
            let m = kids.insert(idx as int, l);
            assert(points_to(ptrs@, m)) by {
                assert forall|j: int| 0 <= j < m.len() implies ptrs@[j] == (#[trigger] m[j]).pg() by {
                    if j < idx {
                        assert(m[j] == kids[j]);
                        assert(old[j] == kids[j].pg());
                    } else if j > idx {
                        assert(m[j] == kids[j - 1]);
                        assert(old[j - 1] == kids[j - 1].pg());
                    }
                }
            }
        }
        write_ptrs(&mut self.rmdb.wr.mmap, lay, parent, &ptrs);
        self.tree = Ghost(
            put(t, w, Tree::Node { page: par.pg(), kids: kids.insert(idx as int, l) }),
        );
        proof {
            lemma_node_page(
                page(self.img(), self.ps(), parent as int),
                lay,
                w.len() == 0,
                ptrs@,
                kids.insert(idx as int, l),
            );
            lemma_added_leaf(s, *self, w, idx as int, l);
            lemma_pending_page(s, l);
            assert(leaf != parent);
            assert(same_page(s.img(), self.img(), self.ps(), leaf as int));
        }
        Ok(())
    }
}

/// A key that all entries are before or behind is none of theirs.
proof fn lemma_not_among(t: Tree, w: Seq<int>, idx: int, key: Seq<u8>)
    requires
        leads(t, w),
        part(t, w) is Node,
        entries(t) == before(t, w) + entries(part(t, w)) + behind(t, w),
        sorted(entries(part(t, w))),
        no_gaps(part(t, w).kids()),
        all_before(before(t, w), key),
        all_behind(behind(t, w), key),
        0 <= idx <= part(t, w).kids().len(),
        forall|j: int|
            0 <= j < idx ==> too_big(entries(#[trigger] part(t, w).kids()[j]), key),
        forall|j: int|
            idx <= j < part(t, w).kids().len() ==> too_small(
                entries(#[trigger] part(t, w).kids()[j]),
                key,
            ),
    ensures
        !is_key(entries(t), key),
{
    let par = part(t, w);
    let kids = par.kids();
    lemma_row(kids, key);
    lemma_below(kids, key);
    lemma_lt_irreflexive(key);
    if is_key(entries(t), key) {
        let x = before(t, w);
        let y = entries(par);
        let i = choose|i: int| 0 <= i < entries(t).len() && #[trigger] entries(t)[i].0 == key;
        if i < x.len() {
            assert(x[i].0 == key);
        } else if i < x.len() + y.len() {
            assert(y[i - x.len()].0 == key);
            let g = below(kids, key);
            lemma_kid_sorted(kids, g);
            lemma_outside(entries(kids[g]), key);
        } else {
            assert(behind(t, w)[i - x.len() - y.len()].0 == key);
        }
    }
}

/// A key that is not behind the first half of a node is before the second half.
proof fn lemma_choose_half(es: Seq<Entry>, a: Seq<Entry>, b: Seq<Entry>, key: Seq<u8>)
    requires
        sorted(es),
        es == a + b,
        a.len() > 0,
    ensures
        too_big(a, key) ==> all_before(a, key),
        !too_big(a, key) ==> all_behind(b, key),
        sorted(a),
{
    let e = Seq::<Entry>::empty();
    assert(es =~= e + a + b);
    lemma_sorted_parts(e, a, b);
    lemma_outside(a, key);
    if !too_big(a, key) {
        let x = a.last().0;
        assert(a[a.len() - 1].0 == x);
        lemma_lt_total(x, key);
        assert forall|i: int| 0 <= i < b.len() implies lt(key, #[trigger] b[i].0) by {
            assert(lt(a[a.len() - 1].0, b[i].0));
            if x != key {
                lemma_lt_transitive(key, x, b[i].0);
            }
        }
    }
}

/// Entries that are all before a key, one behind the other.
proof fn lemma_before_join(a: Seq<Entry>, b: Seq<Entry>, key: Seq<u8>)
    ensures
        all_before(a, key) && all_before(b, key) ==> all_before(a + b, key),
        all_behind(a, key) && all_behind(b, key) ==> all_behind(a + b, key),
{
    let c = a + b;
    if all_before(a, key) && all_before(b, key) {
        assert forall|i: int| 0 <= i < c.len() implies lt(#[trigger] c[i].0, key) by {
            if i < a.len() {
                assert(c[i] == a[i]);
            } else {
                assert(c[i] == b[i - a.len()]);
            }
        }
    }
    if all_behind(a, key) && all_behind(b, key) {
        assert forall|i: int| 0 <= i < c.len() implies lt(key, #[trigger] c[i].0) by {
            if i < a.len() {
                assert(c[i] == a[i]);
            } else {
                assert(c[i] == b[i - a.len()]);
            }
        }
    }
}

/// Into which half of a node that was split a key belongs.
proof fn lemma_half_ready(
    s: RmdbWTxn,
    n: RmdbWTxn,
    w: Seq<int>,
    l: int,
    r: int,
    ql: Seq<int>,
    key: Seq<u8>,
)
    requires
        s.inv(),
        n.inv(),
        leads(s.tree@, w),
        part(s.tree@, w) is Node,
        part(s.tree@, w).kids().len() >= 2,
        height(s.tree@) - w.len() == 1,
        n.split(s, w, l, r, ql),
        all_before(before(s.tree@, w), key),
        all_behind(behind(s.tree@, w), key),
    ensures
        ({
            let a = left_half(part(s.tree@, w), l);
            let u = n.tree@;
            let qr = beside(ql);
            &&& is_key(entries(a), key) ==> is_key(entries(s.tree@), key)
            &&& sorted(entries(a))
            &&& !too_big(entries(a), key) ==> all_before(before(u, ql), key) && all_behind(
                behind(u, ql),
                key,
            )
            &&& too_big(entries(a), key) ==> all_before(before(u, qr), key) && all_behind(
                behind(u, qr),
                key,
            )
            &&& part(u, ql).kids().len() + 1 <= part(s.tree@, w).kids().len()
            &&& part(u, qr).kids().len() + 1 <= part(s.tree@, w).kids().len()
            &&& height(u) - ql.len() == 1
            &&& height(u) - qr.len() == 1
            &&& part(u, ql).pg() == l
            &&& part(u, qr).pg() == r
            &&& holds(n.img(), n.lay(), a, 1, false)
            &&& 1 <= l
        }),
{
    let t = s.tree@;
    let u = n.tree@;
    let cur = part(t, w);
    let a = left_half(cur, l);
    let b = right_half(cur, r);
    lemma_basics(s);
    lemma_basics(n);
    lemma_node(s, w);
    lemma_node(n, ql);
    lemma_put_entries(t, w, cur);
    lemma_sorted_parts(before(t, w), entries(cur), behind(t, w));
    lemma_entries_join(a.kids(), b.kids());
    assert(a.kids() + b.kids() =~= cur.kids());
    lemma_not_empty(n.img(), n.lay(), a, 1);
    if is_key(entries(a), key) {
        let i = choose|i: int| 0 <= i < entries(a).len() && #[trigger] entries(a)[i].0 == key;
        assert(entries(cur)[i] == entries(a)[i]);
        assert(entries(t)[before(t, w).len() + i] == entries(cur)[i]);
        assert(entries(t)[before(t, w).len() + i].0 == key);
    }
    lemma_choose_half(entries(cur), entries(a), entries(b), key);
    lemma_before_join(before(t, w), entries(a), key);
    lemma_before_join(entries(b), behind(t, w), key);
}

impl RmdbWTxn {
    /// Puts a leaf with a new key into the tree. A key that is there already is refused.
    pub(crate) fn add_leaf(&mut self, leaf: u32, key: &[u8], Ghost(l): Ghost<Tree>) -> (r: Result<(), RmdbError>)
        requires
            old(self).inv(),
            old(self).pending(l),
            l.pg() == leaf,
            l->key == key@,
            is_key(entries(old(self).tree@), key@) || reaches(old(self).tree@, key@),
            room_for(old(self).np(), old(self).ps(), 5 * (3 * height(old(self).tree@) + 2)),
        ensures
            final(self).inv(),
            final(self).same_base(*old(self)),
            final(self).np() <= old(self).np() + 9 * (3 * height(old(self).tree@) + 2),
            page(final(self).img(), final(self).ps(), leaf as int) == page(
                old(self).img(),
                old(self).ps(),
                leaf as int,
            ),
            height(final(self).tree@) <= height(old(self).tree@) + 1,
            bushy(old(self).tree@) ==> bushy(final(self).tree@),
            match r {
                Ok(_) => {
                    &&& !is_key(entries(old(self).tree@), key@)
                    &&& final(self)@ == old(self)@.insert(l->key, l->val)
                    &&& final(self).marks() == old(self).marks().insert(l->key, l.entry().2)
                    &&& leaf_of(final(self).tree@, key@) == l
                    &&& leaf_no(final(self).tree@, key@) == leaf
                    &&& final(self).filled(*old(self), key@)
                },
                Err(e) => {
                    &&& is_key(entries(old(self).tree@), key@)
                    &&& e is InvalidMetadata
                    &&& entries(final(self).tree@) == entries(old(self).tree@)
                },
            },
    {
        let ghost s0 = *self;
        let ghost t = self.tree@;
        let ghost w = way(t, key@);
        let ghost n = last_node(t, key@);
        let lay: Layout = self.rmdb.layout;
        let ps: usize = self.rmdb.layout.pagesize;
        proof {
            lemma_basics(s0);
            lemma_types();
            lemma_way(s0.img(), s0.lay(), t, height(t), true, key@);
            lemma_node(s0, w);
            lemma_trail_last(t, w);
            lemma_trail_len(t, w);
            assert(height(t) - w.len() == 1) by {
                if n.kids().len() == 0 {
                    assert(w =~= Seq::empty());
                }
            }
        }
        let mut parents: Vec<u32>;
        {
            let fetch = RmdbFetch::new(lay, self.rmdb.wr.mmap.as_slice(), self.rootpage);
            parents = fetch.get_parents(key, Ghost(t))?;
        }
        let ghost par0 = parents@;
        assert(nums(parents@).last() == parents@.last());
        let mut parent: u32 = match parents.pop() {
            Some(parent) => parent,
            None => {
                assert(false);
                return Err(RmdbError::InvalidMetadata);
            },
        };
        proof {
            assert(nums(parents@) =~= nums(par0).drop_last());
            if w.len() > 0 {
                lemma_pop(t, w);
                lemma_push(t, w.drop_last(), w.last());
                assert(trail(t, w).drop_last() =~= trail(t, w.drop_last()));
            } else {
                assert(parents@.len() == 0);
            }
        }
        let ptype: u16 = get_u16(self.rmdb.wr.mmap.as_slice(), ps, parent, POS_PAGETYPE);
        let nptrs: usize = get_u16(self.rmdb.wr.mmap.as_slice(), ps, parent, NODE_NUMPTRS) as usize;
        let top: usize = NODE_FIRSTPTR + nptrs * PTRSZ;
        if top + PTRSZ <= lay.payload {
            if ptype & PAGE_DIRTY != PAGE_DIRTY {
                proof {
                    lemma_room(
                        s0.np(),
                        s0.ps(),
                        5 * (3 * height(t) + 2),
                        s0.np(),
                        5 * (w.len() as int + 1),
                    );
                }
                parent = self.replace_node(&mut parents, parent, Ghost(w))?;
            } else {
                proof {
                    lemma_replaced_self(s0, w);
                    lemma_step_self(s0);
                }
            }
            proof {
                lemma_pending_step(s0, *self, l);
                lemma_pending_page(s0, l);
                assert(same_page(s0.img(), self.img(), self.ps(), leaf as int));
            }
            return self.insert_leaf(parent, leaf, key, Ghost(w), Ghost(l));
        }
        let (left, right, Ghost(ql)) = self.split_node(&mut parents, parent, Ghost(w))?;
        let ghost s1 = *self;
        let ghost a = left_half(n, left as int);
        proof {
            lemma_pending_step(s0, s1, l);
            lemma_pending_page(s0, l);
            assert(same_page(s0.img(), s1.img(), s1.ps(), leaf as int));
            lemma_half_ready(s0, s1, w, left as int, right as int, ql, key@);
            lemma_basics(s1);
        }
        let mut dummy: Vec<u32> = Vec::new();
        let found: Result<u32, RmdbError>;
        {
            let fetch = RmdbFetch::new(lay, self.rmdb.wr.mmap.as_slice(), self.rootpage);
            found = fetch.get_parents_leaf(
                left,
                key,
                &mut dummy,
                2,
                Ghost(a),
                Ghost(1int),
                Ghost(false),
            );
        }
        match found {
            Ok(_leaf) => Err(RmdbError::InvalidMetadata),
            Err(error) => match error {
                RmdbError::KeyTooBig => {
                    proof {
                        lemma_outside(entries(a), key@);
                    }
                    self.insert_leaf(right, leaf, key, Ghost(beside(ql)), Ghost(l))
                },
                RmdbError::KeyNotFound => {
                    self.insert_leaf(left, leaf, key, Ghost(ql), Ghost(l))
                },
                RmdbError::KeyTooSmall => {
                    proof {
                        lemma_outside(entries(a), key@);
                    }
                    self.insert_leaf(left, leaf, key, Ghost(ql), Ghost(l))
                },
                _ => {
                    assert(false);
                    Err(error)
                },
            },
        }
    }
}

} // verus!
