//! Write transactions: changes to the tree that leave what is saved alone until they are
//! committed.
use crate::blocks::{among, in_free, lemma_among_push, run_of};
use crate::bytes::{
    get_u16, in_img, lemma_extended, lemma_le16, lemma_page_len, page, page_copy, same_page,
    set_bytes, set_u16, u16_at,
};
use crate::contents::{contents, marks};
use crate::db::{Rmdb, RmdbTxnState};
use crate::flags::RmdbFlags;
use crate::freemap::lemma_row_end;
use crate::layout::{Layout, PAGE_DIRTY, POS_PAGEDATA, POS_PAGETYPE};
use crate::path::good;
use crate::saved::{in_map, is_index, kept, lemma_saved_frame, page_type, saved, total_pages, Base};
use crate::store::{lemma_lists_wider, room_for};
use crate::tree::{
    distinct, entries, has_page, height, holds, leads, lemma_has_sub, lemma_height,
    lemma_holds_frame, lemma_holds_put, lemma_page_root, lemma_page_sub, lemma_put_distinct,
    lemma_put_has, lemma_put_page, part, plays, put, sorted, Mark, Role, Tree,
};
use vstd::prelude::*;

verus! {

/// A transaction that writes.
pub struct RmdbWTxn {
    pub rmdb: Rmdb,
    pub status: RmdbTxnState,
    /// The root page of the transaction's own tree.
    pub rootpage: u32,
    /// Pages that the transaction made nodes and leaves of.
    pub dirtypages: Vec<u32>,
    /// Pages that are to be free once the transaction is committed.
    pub deletepages: Vec<u32>,
    /// The transaction's own tree.
    pub tree: Ghost<Tree>,
    /// The free pages as they are saved.
    pub base: Ghost<Base>,
    /// The bytes of the file as they were when the transaction began.
    pub orig: Ghost<Seq<u8>>,
}

impl RmdbWTxn {
    /// The bytes of the file.
    pub open spec fn img(self) -> Seq<u8> {
        self.rmdb.wr.mmap@
    }

    /// How the pages are laid out.
    pub open spec fn lay(self) -> Layout {
        self.rmdb.layout
    }

    /// The page size.
    pub open spec fn ps(self) -> int {
        self.rmdb.layout.ps()
    }

    /// How many pages the database has.
    pub open spec fn np(self) -> int {
        self.rmdb.wr.num_pages as int
    }

    /// Whether page `p` is free.
    pub open spec fn free(self, p: int) -> bool {
        in_free(self.rmdb.wr.ls(), p)
    }

    /// Whether page `p` holds something that is saved.
    pub open spec fn kept(self, p: int) -> bool {
        kept(self.rmdb.tree@, self.base@, p)
    }

    /// Whether page `p` is in use by the transaction's own tree.
    pub open spec fn used(self, p: int) -> bool {
        has_page(self.tree@, p)
    }

    /// Whether page `p` was made a node or leaf by the transaction.
    pub open spec fn dirty(self, p: int) -> bool {
        among(self.dirtypages@, p)
    }

    /// Whether page `p` is to be free after the transaction.
    pub open spec fn deleted(self, p: int) -> bool {
        among(self.deletepages@, p)
    }

    /// Whether page `p` is neither free nor in the tree.
    pub open spec fn loose(self, p: int) -> bool {
        1 <= p < self.np() && !self.free(p) && !self.used(p)
    }

    /// Whether page `p` can get the role `k` in the tree: the transaction made it, and has
    /// not used it yet.
    pub open spec fn new_page(self, p: int, k: Role) -> bool {
        &&& self.loose(p)
        &&& !self.deleted(p)
        &&& !self.kept(p)
        &&& self.dirty(p) == !(k is Data)
    }

    /// Pages that are in the tree are pages of the database, not free, not the map's.
    pub open spec fn used_ok(self) -> bool {
        forall|p: int| #[trigger]
            self.used(p) ==> 1 <= p < self.np() && !self.free(p) && !in_map(self.base@, p)
    }

    /// Pages that are saved are not free.
    pub open spec fn kept_ok(self) -> bool {
        forall|p: int| #[trigger] self.kept(p) ==> !self.free(p)
    }

    /// Pages that are saved have not been written to.
    pub open spec fn kept_same(self) -> bool {
        forall|p: int| #[trigger]
            self.kept(p) ==> page(self.img(), self.ps(), p) == page(self.orig@, self.ps(), p)
    }

    /// Pages that are to be free are no longer in the tree, and each is listed once.
    pub open spec fn deleted_ok(self) -> bool {
        &&& self.deletepages@.no_duplicates()
        &&& forall|p: int| #[trigger]
            self.deleted(p) ==> self.loose(p) && !in_map(self.base@, p)
    }

    /// Pages that the transaction made are neither saved nor free nor data.
    pub open spec fn dirty_ok(self) -> bool {
        forall|p: int| #[trigger]
            self.dirty(p) ==> 1 <= p < self.np() && !self.free(p) && !self.kept(p) && !plays(
                self.tree@,
                p,
                Role::Data,
            )
    }

    /// Nodes and leaves were made by the transaction, or are saved. Only what
    /// was made by it is marked as dirty.
    pub open spec fn index_ok(self) -> bool {
        forall|p: int| #[trigger]
            is_index(self.tree@, p) ==> {
                &&& page_type(self.img(), self.lay(), p) == 0x8004 ==> !self.kept(p)
                &&& self.dirty(p) || (is_index(self.rmdb.tree@, p) && page_type(
                    self.img(),
                    self.lay(),
                    p,
                ) != 0x8004)
            }
    }

    /// The marks of the leaves of all keys, as the transaction sees them.
    pub open spec fn marks(self) -> Map<Seq<u8>, Mark> {
        marks(entries(self.tree@))
    }

    /// Whether the key's value has the right hash, and the page of the key's leaf too where it
    /// is saved. Pages that the transaction made get their hashes when it is committed.
    pub open spec fn intact(self, key: Seq<u8>) -> bool {
        let m = self.marks()[key];
        (self.kept(m.page) ==> self.lay().sealed(self.orig@, m.page)) && m.right
    }

    /// Whether all hashes of the tree that is saved are right, and those of all values.
    pub open spec fn whole(self) -> bool {
        &&& forall|p: int| #[trigger]
            is_index(self.rmdb.tree@, p) ==> self.lay().sealed(self.orig@, p)
        &&& forall|key: Seq<u8>| #[trigger]
            self@.dom().contains(key) ==> self.marks()[key].right
    }

    /// The database is still saved as it was, and the image holds the transaction's own
    /// tree beside it, in pages that are not saved or as they are saved.
    #[verifier::opaque]
    pub open spec fn inv(self) -> bool {
        &&& self.status == RmdbTxnState::Open
        &&& self.lay().ok()
        &&& self.rmdb.wr.ok(self.ps())
        &&& total_pages(self.img(), self.lay()) <= self.np()
        &&& saved(
            self.img(),
            self.lay(),
            self.rmdb.rootpage as int,
            self.rmdb.tree@,
            self.base@,
        )
        &&& good(self.img(), self.lay(), self.rootpage as int, self.tree@)
        &&& self.dirty(self.rootpage as int) || self.rootpage == self.rmdb.rootpage
        &&& self.used_ok()
        &&& self.kept_ok()
        &&& self.kept_same()
        &&& self.deleted_ok()
        &&& self.dirty_ok()
        &&& self.index_ok()
    }

    /// Whether `self` has what is saved in common with `s`.
    pub open spec fn same_base(self, s: RmdbWTxn) -> bool {
        &&& self.lay() == s.lay()
        &&& self.rmdb.rootpage == s.rmdb.rootpage
        &&& self.rmdb.tree == s.rmdb.tree
        &&& self.base == s.base
        &&& self.orig == s.orig
        &&& self.status == s.status
        &&& self.np() >= s.np()
    }

    /// Whether `self` came from `s` by steps that leave alone what is saved, and pages other
    /// than `x` that are neither free nor in the tree.
    pub open spec fn step_but(self, s: RmdbWTxn, x: int) -> bool {
        &&& self.same_base(s)
        &&& forall|p: int| #[trigger] s.kept(p) ==> same_page(s.img(), self.img(), self.ps(), p)
        &&& forall|p: int|
            #![trigger s.loose(p)]
            s.loose(p) && p != x ==> self.loose(p) && same_page(
                s.img(),
                self.img(),
                self.ps(),
                p,
            ) && self.deleted(p) == s.deleted(p) && self.dirty(p) == s.dirty(p)
    }

    /// Whether `self` came from `s` by steps that leave alone what is saved, and pages that
    /// are neither free nor in the tree.
    pub open spec fn step(self, s: RmdbWTxn) -> bool {
        self.step_but(s, 0)
    }

    /// Whether `self` has the tree of `s`.
    pub open spec fn same_tree(self, s: RmdbWTxn) -> bool {
        self.tree == s.tree && self.rootpage == s.rootpage
    }

    /// Whether `self` is `s` with page `x` given up: a page that is marked as dirty is no
    /// longer one of those that the transaction made, and is free. Any other page comes last
    /// among those to be free after the transaction.
    pub open spec fn gave_up(self, s: RmdbWTxn, x: u32) -> bool {
        if page_type(s.img(), s.lay(), x as int) as u16 & PAGE_DIRTY == PAGE_DIRTY {
            &&& self.dirtypages@ == all_but(s.dirtypages@, x)
            &&& self.deletepages == s.deletepages
            &&& self.rmdb.wr.freepages.free == s.rmdb.wr.freepages.free + 1
            &&& forall|p: int| #[trigger] self.free(p) <==> s.free(p) || p == x
        } else {
            &&& self.rmdb == s.rmdb
            &&& self.dirtypages == s.dirtypages
            &&& self.deletepages@ == s.deletepages@.push(x)
        }
    }

    /// Gets `n` free pages, in a row if `contiguous`.
    pub(crate) fn take_pages(&mut self, n: usize, contiguous: bool) -> (r: Vec<u32>)
        requires
            old(self).inv(),
            n >= 1,
            contiguous || n == 1,
            room_for(old(self).np(), old(self).ps(), n as int),
        ensures
            final(self).inv(),
            final(self).step(*old(self)),
            final(self).same_tree(*old(self)),
            final(self).dirtypages == old(self).dirtypages,
            final(self).deletepages == old(self).deletepages,
            final(self).np() <= old(self).np() + 2 * n + 7,
            r.len() == n,
            contiguous ==> r@ == run_of(r[0], n as int),
            contiguous ==> r[0] + n <= final(self).np(),
            forall|i: int|
                0 <= i < n ==> final(self).new_page(#[trigger] r[i] as int, Role::Data),
            forall|i: int|
                0 <= i < n ==> !old(self).loose(#[trigger] r[i] as int) && !old(self).used(
                    r[i] as int,
                ),
            forall|p: int| #[trigger]
                same_page(old(self).img(), final(self).img(), final(self).ps(), p),
    {
        reveal(RmdbWTxn::inv);
        let ghost s = *self;
        let ps: usize = self.rmdb.layout.pagesize;
        match self.rmdb.wr.get_free_pages(ps, n, contiguous) {
            Ok(res) => {
                proof {
                    lemma_alloc(s, *self, res@);
                    if contiguous {
                        assert forall|i: int| 0 <= i < n implies #[trigger] res@[i] < self.np() by {
                            assert(self.new_page(res@[i] as int, Role::Data));
                        }
                        lemma_row_end(res@, n as int, self.np());
                    }
                }
                res
            },
            Err(_) => {
                assert(false);
                Vec::new()
            },
        }
    }

    /// Notes that the transaction made a node or a leaf of the page. On request, and where
    /// the flags say so, the page is zeroed.
    pub(crate) fn mark_dirty(&mut self, pagenum: u32, zeropage: bool)
        requires
            old(self).inv(),
            old(self).loose(pagenum as int),
            !old(self).kept(pagenum as int),
        ensures
            final(self).inv(),
            final(self).step_but(*old(self), pagenum as int),
            final(self).same_tree(*old(self)),
            final(self).rmdb.wr.ls() == old(self).rmdb.wr.ls(),
            final(self).deletepages == old(self).deletepages,
            final(self).np() == old(self).np(),
            final(self).dirty(pagenum as int),
            marked(
                page(old(self).img(), old(self).ps(), pagenum as int),
                page(final(self).img(), final(self).ps(), pagenum as int),
                old(self).lay(),
                zeropage && old(self).lay().flags.has(RmdbFlags::ZERO_PAGES),
            ),
            forall|p: int|
                p != pagenum ==> #[trigger] same_page(
                    old(self).img(),
                    final(self).img(),
                    final(self).ps(),
                    p,
                ),
            forall|p: int|
                p != pagenum ==> (#[trigger] final(self).dirty(p) <==> old(self).dirty(p)),
    {
        reveal(RmdbWTxn::inv);
        let ghost s = *self;
        let ghost c = pagenum as int;
        let ps: usize = self.rmdb.layout.pagesize;
        let pl: usize = self.rmdb.layout.payload;
        proof {
            self.rmdb.wr.lemma_pages_in(self.ps(), c);
        }
        let ptype: u16 = get_u16(self.rmdb.wr.mmap.as_slice(), ps, pagenum, POS_PAGETYPE);
        set_u16(&mut self.rmdb.wr.mmap, ps, pagenum, POS_PAGETYPE, ptype | PAGE_DIRTY);
        let ghost img1 = self.img();
        if !holds_page(&self.dirtypages, pagenum) {
            self.dirtypages.push(pagenum);
        }
        proof {
            lemma_among_push(s.dirtypages@, pagenum);
        }
        if zeropage && self.rmdb.layout.flags.contains(RmdbFlags::ZERO_PAGES) {
            let mut zero: Vec<u8> = Vec::new();
            zero.resize(pl - POS_PAGEDATA, 0);
            set_bytes(&mut self.rmdb.wr.mmap, ps, pagenum, POS_PAGEDATA, zero.as_slice());
        }
        proof {
            assert forall|p: int| p != c implies #[trigger] same_page(
                s.img(),
                self.img(),
                self.ps(),
                p,
            ) by {
                assert(same_page(s.img(), img1, self.ps(), p));
                assert(same_page(img1, self.img(), self.ps(), p));
            }
            assert forall|p: int| #[trigger] self.dirty(p) <==> s.dirty(p) || p == c by {
                assert(among(s.dirtypages@.push(pagenum), p) <==> among(s.dirtypages@, p) || p
                    == pagenum);
            }
            lemma_marked(s, *self, c);
            let (a, b) = (page(s.img(), s.ps(), c), page(img1, s.ps(), c));
            lemma_page_len(s.img(), s.ps(), c);
            lemma_le16(a, 0, ptype | PAGE_DIRTY);
            let d = page(self.img(), s.ps(), c);
            assert(d[0] == b[0] && d[1] == b[1]);
        }
    }

    /// A new page that the transaction made, with the contents of `source`.
    pub(crate) fn get_new_page_copy(&mut self, source: u32) -> (r: u32)
        requires
            old(self).inv(),
            1 <= source < old(self).np(),
            !old(self).free(source as int),
            room_for(old(self).np(), old(self).ps(), 1),
        ensures
            final(self).inv(),
            final(self).step(*old(self)),
            final(self).same_tree(*old(self)),
            final(self).deletepages == old(self).deletepages,
            final(self).np() <= old(self).np() + 9,
            final(self).new_page(r as int, Role::Node),
            !old(self).loose(r as int),
            !old(self).used(r as int),
            page(final(self).img(), final(self).ps(), r as int) == page(
                old(self).img(),
                old(self).ps(),
                source as int,
            ),
            forall|p: int|
                p != r ==> #[trigger] same_page(
                    old(self).img(),
                    final(self).img(),
                    final(self).ps(),
                    p,
                ),
            forall|p: int|
                p != r ==> (#[trigger] final(self).dirty(p) <==> old(self).dirty(p)),
    {
        reveal(RmdbWTxn::inv);
        let ghost s0 = *self;
        let pages: Vec<u32> = self.take_pages(1, false);
        let copy: u32 = pages[0];
        let ghost s1 = *self;
        let ghost c = copy as int;
        assert(s1.new_page(pages@[0] as int, Role::Data));
        self.mark_dirty(copy, false);
        let ghost s2 = *self;
        let ps: usize = self.rmdb.layout.pagesize;
        proof {
            self.rmdb.wr.lemma_pages_in(self.ps(), source as int);
            self.rmdb.wr.lemma_pages_in(self.ps(), c);
        }
        page_copy(&mut self.rmdb.wr.mmap, ps, source, copy);
        proof {
            lemma_copied(s0, s1, s2, *self, source as int, c);
        }
        copy
    }

    /// Gives up a page that has left the tree: a page that is marked as dirty is free at
    /// once, any other when the transaction is committed.
    pub(crate) fn delete_page(&mut self, pagenum: u32)
        requires
            old(self).inv(),
            old(self).loose(pagenum as int),
            !old(self).deleted(pagenum as int),
            !in_map(old(self).base@, pagenum as int),
            page_type(old(self).img(), old(self).lay(), pagenum as int) as u16 & PAGE_DIRTY
                == PAGE_DIRTY ==> !old(self).kept(pagenum as int),
        ensures
            final(self).inv(),
            final(self).step_but(*old(self), pagenum as int),
            final(self).same_tree(*old(self)),
            final(self).img() == old(self).img(),
            final(self).np() == old(self).np(),
            final(self).gave_up(*old(self), pagenum),
            forall|p: int|
                p != pagenum ==> (#[trigger] final(self).dirty(p) <==> old(self).dirty(p)),
    {
        reveal(RmdbWTxn::inv);
        let ghost s = *self;
        let ghost c = pagenum as int;
        let ps: usize = self.rmdb.layout.pagesize;
        proof {
            self.rmdb.wr.lemma_pages_in(self.ps(), c);
        }
        let ptype: u16 = get_u16(self.rmdb.wr.mmap.as_slice(), ps, pagenum, POS_PAGETYPE);
        if ptype & PAGE_DIRTY == PAGE_DIRTY {
            let one: Vec<u32> = vec![pagenum];
            proof {
                assert(one@[0] == pagenum);
                assert forall|p: int| #[trigger] among(one@, p) <==> p == c by {
                    if p == c {
                        assert(one@[0] == p);
                    }
                }
            }
            match self.rmdb.wr.freepages.put_free_pages(&one, Ghost(self.np())) {
                Ok(_) => {},
                Err(_) => {
                    assert(false);
                },
            }
            self.dirtypages = without_page(&self.dirtypages, pagenum);
            proof {
                lemma_freed(s, *self, c);
                assert forall|p: int| #[trigger] self.free(p) <==> s.free(p) || p == c by {
                    assert(in_free(s.rmdb.wr.freepages.ls(), p) == s.free(p));
                }
            }
        } else {
            self.deletepages.push(pagenum);
            proof {
                lemma_deleted(s, *self, pagenum);
            }
        }
    }
}

impl View for RmdbWTxn {
    type V = Map<Seq<u8>, Seq<u8>>;

    /// The keys and their values as the transaction sees them.
    open spec fn view(&self) -> Map<Seq<u8>, Seq<u8>> {
        contents(entries(self.tree@))
    }
}

/// What can be told of a transaction without its pages.
pub(crate) proof fn lemma_basics(s: RmdbWTxn)
    requires
        s.inv(),
    ensures
        s.status == RmdbTxnState::Open,
        s.lay().ok(),
        s.rmdb.wr.ok(s.ps()),
        good(s.img(), s.lay(), s.rootpage as int, s.tree@),
        height(s.tree@) >= 1,
{
    reveal(RmdbWTxn::inv);
}

/// A page of the tree.
pub(crate) proof fn lemma_used(s: RmdbWTxn, p: int)
    requires
        s.inv(),
        s.used(p),
    ensures
        1 <= p < s.np(),
        !s.free(p),
        !in_map(s.base@, p),
        !s.loose(p),
        in_img(s.img(), s.ps(), p),
{
    reveal(RmdbWTxn::inv);
    s.rmdb.wr.lemma_pages_in(s.ps(), p);
}

/// A change outside of the tree and of what is saved.
pub(crate) proof fn lemma_outside_change(s: RmdbWTxn, n: RmdbWTxn)
    requires
        s.inv(),
        n.same_base(s),
        n.tree == s.tree,
        n.rootpage == s.rootpage,
        n.rmdb.wr.ok(n.ps()),
        forall|p: int|
            #![trigger same_page(s.img(), n.img(), n.ps(), p)]
            s.used(p) || s.kept(p) ==> same_page(s.img(), n.img(), n.ps(), p),
        forall|p: int| #[trigger]
            n.free(p) ==> s.free(p) || p >= s.np() || (!s.used(p) && !s.kept(p)),
        n.deleted_ok(),
        n.dirty_ok(),
        forall|p: int| #[trigger] s.dirty(p) && s.used(p) ==> n.dirty(p),
    ensures
        n.inv(),
{
    reveal(RmdbWTxn::inv);
    let t = s.tree@;
    assert forall|p: int| #[trigger] kept(s.rmdb.tree@, s.base@, p) implies same_page(
        s.img(),
        n.img(),
        n.ps(),
        p,
    ) by {
        assert(s.kept(p));
    }
    lemma_saved_frame(
        s.img(),
        n.img(),
        s.lay(),
        s.rmdb.rootpage as int,
        s.rmdb.tree@,
        s.base@,
    );
    assert forall|p: int| #[trigger] has_page(t, p) implies same_page(
        s.img(),
        n.img(),
        n.ps(),
        p,
    ) by {
        assert(s.used(p));
    }
    lemma_holds_frame(s.img(), n.img(), s.lay(), t, height(t), true);
    assert(n.used_ok()) by {
        assert forall|p: int| #[trigger] n.used(p) implies 1 <= p < n.np() && !n.free(p) && !in_map(
            n.base@,
            p,
        ) by {
            assert(s.used(p));
        }
    }
    assert(n.kept_ok()) by {
        assert forall|p: int| #[trigger] n.kept(p) implies !n.free(p) by {
            assert(s.kept(p));
            lemma_kept_low(s, p);
        }
    }
    lemma_kept_same(s, n);
    assert(n.index_ok()) by {
        assert forall|p: int| #[trigger] is_index(n.tree@, p) implies {
            &&& page_type(n.img(), n.lay(), p) == 0x8004 ==> !n.kept(p)
            &&& n.dirty(p) || (is_index(n.rmdb.tree@, p) && page_type(n.img(), n.lay(), p)
                != 0x8004)
        } by {
            assert(is_index(s.tree@, p));
            assert(s.used(p));
            assert(same_page(s.img(), n.img(), n.ps(), p));
            crate::tree::lemma_index_in(s.img(), s.lay(), t, height(t), true, p);
            assert(n.kept(p) == s.kept(p));
        }
    }
}

/// Pages that are saved stay as they were where a change leaves them alone.
proof fn lemma_kept_same(s: RmdbWTxn, n: RmdbWTxn)
    requires
        s.inv(),
        n.same_base(s),
        forall|p: int| #[trigger] s.kept(p) ==> same_page(s.img(), n.img(), n.ps(), p),
    ensures
        n.kept_same(),
{
    reveal(RmdbWTxn::inv);
    assert forall|p: int| #[trigger] n.kept(p) implies page(n.img(), n.ps(), p) == page(
        n.orig@,
        n.ps(),
        p,
    ) by {
        assert(s.kept(p));
        lemma_kept_low(s, p);
        s.rmdb.wr.lemma_pages_in(s.ps(), p);
        assert(same_page(s.img(), n.img(), n.ps(), p));
    }
}

/// What is saved lies in pages of the database.
pub(crate) proof fn lemma_kept_low(s: RmdbWTxn, p: int)
    requires
        s.inv(),
        s.kept(p),
    ensures
        0 <= p < s.np(),
{
    reveal(RmdbWTxn::inv);
    if in_map(s.base@, p) {
    } else if p != 0 {
        assert(has_page(s.rmdb.tree@, p));
    }
}

/// Puts a node into the tree in place of another: the same page with other children, or
/// another root. Its other pages stood there before, or are new.
pub(crate) proof fn lemma_relink(s: RmdbWTxn, n: RmdbWTxn, q: Seq<int>, m: Tree)
    requires
        s.inv(),
        n.same_base(s),
        n.np() == s.np(),
        n.rmdb.wr.ok(n.ps()),
        n.rmdb.wr.ls() == s.rmdb.wr.ls(),
        n.dirtypages == s.dirtypages,
        n.deletepages == s.deletepages,
        leads(s.tree@, q),
        part(s.tree@, q) is Node,
        m is Node,
        q.len() == 0 || m.pg() == part(s.tree@, q).pg(),
        n.tree@ == put(s.tree@, q, m),
        n.rootpage == n.tree@.pg(),
        holds(
            n.img(),
            n.lay(),
            m,
            if q.len() == 0 {
                height(m)
            } else {
                height(s.tree@) - q.len()
            },
            q.len() == 0,
        ),
        distinct(m),
        sorted(entries(n.tree@)),
        m.pg() == part(s.tree@, q).pg() || s.new_page(m.pg(), Role::Node),
        s.dirty(m.pg()),
        !s.kept(m.pg()),
        forall|p: int| p != m.pg() ==> #[trigger] same_page(s.img(), n.img(), n.ps(), p),
        forall|p: int, k: Role| #[trigger]
            plays(m, p, k) && p != m.pg() ==> plays(part(s.tree@, q), p, k) || s.new_page(p, k),
    ensures
        n.inv(),
        q.len() > 0 ==> height(n.tree@) == height(s.tree@),
        forall|p: int| #[trigger] s.loose(p) && !has_page(m, p) ==> n.loose(p),
        forall|p: int| #[trigger]
            has_page(part(s.tree@, q), p) && !has_page(m, p) ==> n.loose(p) && !n.deleted(p)
                && !in_map(n.base@, p),
{
    reveal(RmdbWTxn::inv);
    let t = s.tree@;
    let u = n.tree@;
    let old = part(t, q);
    let c = m.pg();
    lemma_page_root(old);
    lemma_page_sub(t, q, old.pg());
    assert forall|p: int| #[trigger] kept(s.rmdb.tree@, s.base@, p) implies same_page(
        s.img(),
        n.img(),
        n.ps(),
        p,
    ) by {
        assert(s.kept(p));
    }
    lemma_saved_frame(
        s.img(),
        n.img(),
        s.lay(),
        s.rmdb.rootpage as int,
        s.rmdb.tree@,
        s.base@,
    );
    assert forall|p: int| #[trigger] has_page(m, p) implies has_page(old, p) || s.loose(p)
        && !s.deleted(p) && !in_map(s.base@, p) by {
        if p != c {
            lemma_role(m, p);
            let k = choose|k: Role| #[trigger] plays(m, p, k);
            if plays(old, p, k) {
                lemma_role_page(old, p, k);
            } else {
                assert(s.new_page(p, k));
            }
        }
    }
    assert forall|p: int| #[trigger] has_page(m, p) && has_page(t, p) implies has_page(old, p) by {
        assert(s.used(p));
    }
    lemma_put_distinct(t, q, m);
    assert forall|p: int| #[trigger] has_page(t, p) && !has_page(old, p) implies same_page(
        s.img(),
        n.img(),
        n.ps(),
        p,
    ) by {
        assert(s.used(p));
    }
    if q.len() == 0 {
        assert(u == m);
    } else {
        lemma_holds_put(s.img(), n.img(), s.lay(), t, q, m, height(t), true);
        lemma_height(n.img(), n.lay(), u, height(t), true);
        assert(t.kids().len() > 0);
        assert(u.kids().len() > 0);
    }
    assert forall|p: int| #[trigger] n.used(p) <==> has_page(m, p) || (s.used(p) && !has_page(
        old,
        p,
    )) by {
        lemma_put_page(t, q, m, p);
    }
    assert(n.used_ok()) by {
        assert forall|p: int| #[trigger] n.used(p) implies 1 <= p < n.np() && !n.free(p) && !in_map(
            n.base@,
            p,
        ) by {
            if has_page(old, p) {
                lemma_page_sub(t, q, p);
            }
            if s.used(p) {
            } else {
                assert(s.loose(p));
            }
        }
    }
    assert(n.kept_ok()) by {
        assert forall|p: int| #[trigger] n.kept(p) implies !n.free(p) by {
            assert(s.kept(p));
        }
    }
    assert forall|p: int| #[trigger] n.kept(p) implies same_page(s.img(), n.img(), n.ps(), p) by {
        assert(s.kept(p));
    }
    lemma_kept_same(s, n);
    assert(n.deleted_ok()) by {
        assert forall|p: int| #[trigger] n.deleted(p) implies n.loose(p) && !in_map(n.base@, p) by {
            assert(s.deleted(p));
            if has_page(m, p) {
                if has_page(old, p) {
                    lemma_page_sub(t, q, p);
                    assert(s.used(p));
                }
            }
            assert(!n.used(p));
        }
    }
    assert(n.dirty_ok()) by {
        assert forall|p: int| #[trigger] n.dirty(p) implies 1 <= p < n.np() && !n.free(p) && !n.kept(
            p,
        ) && !plays(u, p, Role::Data) by {
            assert(s.dirty(p));
            lemma_put_has(t, q, m, p, Role::Data);
            if plays(m, p, Role::Data) {
                if p == c {
                    let i = lemma_role_kid(m, c, Role::Data);
                    lemma_role_page(m.kids()[i], c, Role::Data);
                } else if plays(old, p, Role::Data) {
                    lemma_has_sub(t, q, p, Role::Data);
                } else {
                    assert(s.new_page(p, Role::Data));
                }
            }
        }
    }
    assert(n.index_ok()) by {
        assert forall|p: int| #[trigger] is_index(u, p) implies {
            &&& page_type(n.img(), n.lay(), p) == 0x8004 ==> !n.kept(p)
            &&& n.dirty(p) || (is_index(n.rmdb.tree@, p) && page_type(n.img(), n.lay(), p)
                != 0x8004)
        } by {
            let k = if plays(u, p, Role::Node) {
                Role::Node
            } else {
                Role::Leaf
            };
            lemma_put_has(t, q, m, p, k);
            assert(n.dirty(p) == s.dirty(p));
            assert(n.kept(p) == s.kept(p));
            if p != c {
                if plays(m, p, k) && !plays(old, p, k) {
                    assert(s.new_page(p, k));
                } else {
                    if plays(m, p, k) {
                        lemma_has_sub(t, q, p, k);
                    }
                    assert(is_index(t, p));
                    crate::tree::lemma_index_in(s.img(), s.lay(), t, height(t), true, p);
                    assert(same_page(s.img(), n.img(), n.ps(), p));
                }
            }
        }
    }
    assert forall|p: int| #[trigger] s.loose(p) && !has_page(m, p) implies n.loose(p) by {
        assert(!n.used(p));
    }
    assert forall|p: int| #[trigger] has_page(old, p) && !has_page(m, p) implies n.loose(p)
        && !n.deleted(p) && !in_map(n.base@, p) by {
        lemma_page_sub(t, q, p);
        assert(s.used(p));
        assert(!n.used(p));
        if n.deleted(p) {
            assert(s.deleted(p));
        }
    }
}

/// A page of a tree has a role in it.
proof fn lemma_role(t: Tree, p: int)
    requires
        has_page(t, p),
    ensures
        exists|k: Role| #[trigger] plays(t, p, k),
{
    if plays(t, p, Role::Node) {
    } else if plays(t, p, Role::Leaf) {
    } else {
        assert(plays(t, p, Role::Data));
    }
}

/// What has a role in a tree is a page of it.
pub(crate) proof fn lemma_role_page(t: Tree, p: int, k: Role)
    requires
        plays(t, p, k),
    ensures
        has_page(t, p),
{
    match k {
        Role::Node => {},
        Role::Leaf => {},
        Role::Data => {},
    }
}

/// A role in a node's tree other than that of a node is one in a child.
proof fn lemma_role_kid(t: Tree, p: int, k: Role) -> (i: int)
    requires
        t is Node,
        plays(t, p, k),
        p != t.pg() || !(k is Node),
    ensures
        0 <= i < t.kids().len(),
        plays(t.kids()[i], p, k),
{
    let kids = t.kids();
    choose|i: int| 0 <= i < kids.len() && plays(#[trigger] kids[i], p, k)
}

/// Whether the page is one of the list.
fn holds_page(v: &Vec<u32>, x: u32) -> (r: bool)
    ensures
        r == among(v@, x as int),
{
    let mut i: usize = 0;
    while i < v.len()
        invariant
            i <= v.len(),
            forall|j: int| 0 <= j < i ==> #[trigger] v[j] != x,
        decreases v.len() - i,
    {
        if v[i] == x {
            assert(v@[i as int] == x);
            return true;
        }
        i = i + 1;
    }
    false
}

/// Whether `b` is the page `a` marked as dirty, and with `zero` emptied.
pub open spec fn marked(a: Seq<u8>, b: Seq<u8>, lay: Layout, zero: bool) -> bool {
    &&& u16_at(b, 0) == u16_at(a, 0) as u16 | PAGE_DIRTY
    &&& forall|i: int|
        2 <= i < a.len() ==> #[trigger] b[i] == (if zero && POS_PAGEDATA <= i < lay.payload {
            0
        } else {
            a[i]
        })
}

/// The pages of the list but for `x`.
pub open spec fn all_but(s: Seq<u32>, x: u32) -> Seq<u32> {
    s.filter(|p: u32| p != x)
}

/// The list has the other pages, and not this one.
pub(crate) proof fn lemma_all_but(s: Seq<u32>, x: u32)
    ensures
        forall|p: u32| #[trigger] all_but(s, x).contains(p) <==> s.contains(p) && p != x,
    decreases s.len(),
{
    reveal(Seq::filter);
    if s.len() > 0 {
        let (front, last) = (s.drop_last(), s.last());
        lemma_all_but(front, x);
        assert(s =~= front.push(last));
        let f = all_but(front, x);
        assert(all_but(s, x) == (if last != x {
            f.push(last)
        } else {
            f
        }));
        assert forall|p: u32| #[trigger] all_but(s, x).contains(p) <==> s.contains(p) && p != x by {
            assert(front.contains(p) ==> s.contains(p)) by {
                if front.contains(p) {
                    let i = choose|i: int| 0 <= i < front.len() && front[i] == p;
                    assert(s[i] == p);
                }
            }
            assert(s.contains(p) ==> front.contains(p) || p == last) by {
                if s.contains(p) {
                    let i = choose|i: int| 0 <= i < s.len() && s[i] == p;
                    if i < front.len() {
                        assert(front[i] == p);
                    }
                }
            }
            assert(s[s.len() - 1] == last);
            if last != x {
                assert(f.push(last)[f.len() as int] == last);
                if f.contains(p) {
                    let i = choose|i: int| 0 <= i < f.len() && f[i] == p;
                    assert(f.push(last)[i] == p);
                }
                if f.push(last).contains(p) {
                    let i = choose|i: int| 0 <= i < f.push(last).len() && f.push(last)[i] == p;
                    if i < f.len() {
                        assert(f[i] == p);
                    }
                }
            }
        }
    }
}

/// The list without the page.
fn without_page(v: &Vec<u32>, x: u32) -> (r: Vec<u32>)
    ensures
        r@ == all_but(v@, x),
        forall|p: int| #[trigger] among(r@, p) <==> among(v@, p) && p != x,
{
    let mut r: Vec<u32> = Vec::new();
    let mut i: usize = 0;
    proof {
        reveal(Seq::filter);
    }
    while i < v.len()
        invariant
            i <= v.len(),
            r@ == all_but(v@.take(i as int), x),
            forall|p: int| #[trigger] among(r@, p) <==> among(v@.take(i as int), p) && p != x,
        decreases v.len() - i,
    {
        proof {
            reveal(Seq::filter);
            assert(v@.take(i + 1).drop_last() =~= v@.take(i as int));
            assert(v@.take(i + 1) =~= v@.take(i as int).push(v@[i as int]));
            lemma_among_push(v@.take(i as int), v@[i as int]);
            lemma_among_push(r@, v@[i as int]);
        }
        if v[i] != x {
            r.push(v[i]);
        }
        i = i + 1;
    }
    assert(v@.take(i as int) =~= v@);
    r
}

/// Pages that are given out are new to the transaction.
proof fn lemma_alloc(s: RmdbWTxn, n: RmdbWTxn, res: Seq<u32>)
    requires
        s.inv(),
        n.same_base(s),
        n.same_tree(s),
        n.dirtypages == s.dirtypages,
        n.deletepages == s.deletepages,
        n.rmdb.wr.ok(n.ps()),
        n.rmdb.wr.gave(s.rmdb.wr, res),
    ensures
        n.inv(),
        n.step(s),
        forall|i: int| 0 <= i < res.len() ==> n.new_page(#[trigger] res[i] as int, Role::Data),
        forall|i: int|
            0 <= i < res.len() ==> !s.loose(#[trigger] res[i] as int) && !s.used(res[i] as int),
        forall|p: int| #[trigger] same_page(s.img(), n.img(), n.ps(), p),
{
    reveal(RmdbWTxn::inv);
    let w = s.rmdb.wr;
    let v = n.rmdb.wr;
    lemma_lists_wider(w.ls(), w.num_pages as int, w.num_pages as int);
    assert forall|p: int| #[trigger] same_page(s.img(), n.img(), n.ps(), p) by {
        lemma_extended(s.img(), n.img(), n.ps(), p);
    }
    assert forall|p: int| #[trigger] n.free(p) implies s.free(p) || p >= s.np() by {
        assert(in_free(v.ls(), p));
    }
    assert(n.deleted_ok()) by {
        assert forall|p: int| #[trigger] n.deleted(p) implies n.loose(p) && !in_map(n.base@, p) by {
            assert(s.deleted(p));
            assert(s.loose(p));
        }
    }
    assert(n.dirty_ok()) by {
        assert forall|p: int| #[trigger] n.dirty(p) implies 1 <= p < n.np() && !n.free(p) && !n.kept(
            p,
        ) && !plays(n.tree@, p, Role::Data) by {
            assert(s.dirty(p));
            assert(n.kept(p) == s.kept(p));
        }
    }
    lemma_outside_change(s, n);
    assert forall|p: int| #![trigger s.loose(p)] s.loose(p) && p != 0 implies n.loose(p)
        && same_page(s.img(), n.img(), n.ps(), p) && n.deleted(p) == s.deleted(p) && n.dirty(p)
        == s.dirty(p) by {
        assert(same_page(s.img(), n.img(), n.ps(), p));
        assert(!n.free(p));
    }
    assert forall|i: int| 0 <= i < res.len() implies n.new_page(#[trigger] res[i] as int, Role::Data)
        && !s.loose(res[i] as int) && !s.used(res[i] as int) by {
        let p = res[i] as int;
        assert(in_free(w.ls(), p) || w.num_pages <= p < v.num_pages);
        assert(s.free(p) || p >= s.np());
        assert(among(res, p));
        assert(!in_free(v.ls(), p));
        assert(!n.free(p));
        if s.used(p) {
        }
        if s.kept(p) {
            lemma_kept_low(s, p);
        }
        assert(n.kept(p) == s.kept(p));
        if s.deleted(p) {
            assert(s.loose(p));
        }
        if s.dirty(p) {
        }
        assert(n.used(p) == s.used(p));
    }
}

/// A page outside of everything was written over and marked.
proof fn lemma_marked(s: RmdbWTxn, n: RmdbWTxn, c: int)
    requires
        s.inv(),
        n.same_base(s),
        n.same_tree(s),
        n.np() == s.np(),
        n.rmdb.wr.freepages == s.rmdb.wr.freepages,
        n.rmdb.wr.ok(n.ps()),
        n.deletepages == s.deletepages,
        s.loose(c),
        !s.kept(c),
        forall|p: int| p != c ==> #[trigger] same_page(s.img(), n.img(), n.ps(), p),
        forall|p: int| #[trigger] n.dirty(p) <==> s.dirty(p) || p == c,
    ensures
        n.inv(),
        n.step_but(s, c),
{
    reveal(RmdbWTxn::inv);
    assert forall|p: int| #[trigger] n.free(p) == s.free(p) by {}
    assert forall|p: int| #[trigger] n.kept(p) == s.kept(p) by {}
    assert(n.deleted_ok()) by {
        assert forall|p: int| #[trigger] n.deleted(p) implies n.loose(p) && !in_map(n.base@, p) by {
            assert(s.deleted(p));
            assert(s.loose(p));
        }
    }
    assert(n.dirty_ok()) by {
        assert forall|p: int| #[trigger] n.dirty(p) implies 1 <= p < n.np() && !n.free(p) && !n.kept(
            p,
        ) && !plays(n.tree@, p, Role::Data) by {
            if p == c {
                assert(!s.used(c));
            } else {
                assert(s.dirty(p));
            }
        }
    }
    lemma_outside_change(s, n);
    assert forall|p: int| #![trigger s.loose(p)] s.loose(p) && p != c implies n.loose(p)
        && same_page(s.img(), n.img(), n.ps(), p) && n.deleted(p) == s.deleted(p) && n.dirty(p)
        == s.dirty(p) by {
        assert(same_page(s.img(), n.img(), n.ps(), p));
        assert(n.used(p) == s.used(p));
    }
}

/// A page outside of everything was written over.
pub(crate) proof fn lemma_scribbled(s: RmdbWTxn, n: RmdbWTxn, c: int)
    requires
        s.inv(),
        n.same_base(s),
        n.same_tree(s),
        n.np() == s.np(),
        n.rmdb.wr.freepages == s.rmdb.wr.freepages,
        n.rmdb.wr.ok(n.ps()),
        n.deletepages == s.deletepages,
        n.dirtypages == s.dirtypages,
        s.loose(c),
        !s.kept(c),
        forall|p: int| p != c ==> #[trigger] same_page(s.img(), n.img(), n.ps(), p),
    ensures
        n.inv(),
        n.step_but(s, c),
        n.loose(c),
        !n.kept(c),
        n.deleted(c) == s.deleted(c),
        n.dirty(c) == s.dirty(c),
{
    reveal(RmdbWTxn::inv);
    assert forall|p: int| #[trigger] n.free(p) == s.free(p) by {}
    assert forall|p: int| #[trigger] n.kept(p) == s.kept(p) by {}
    assert forall|p: int| #[trigger] n.used(p) == s.used(p) by {}
    assert(n.deleted_ok()) by {
        assert forall|p: int| #[trigger] n.deleted(p) implies n.loose(p) && !in_map(n.base@, p) by {
            assert(s.deleted(p));
            assert(s.loose(p));
        }
    }
    assert(n.dirty_ok()) by {
        assert forall|p: int| #[trigger] n.dirty(p) implies 1 <= p < n.np() && !n.free(p) && !n.kept(
            p,
        ) && !plays(n.tree@, p, Role::Data) by {
            assert(s.dirty(p));
        }
    }
    lemma_outside_change(s, n);
    assert forall|p: int| #![trigger s.loose(p)] s.loose(p) && p != c implies n.loose(p)
        && same_page(s.img(), n.img(), n.ps(), p) && n.deleted(p) == s.deleted(p) && n.dirty(p)
        == s.dirty(p) by {
        assert(same_page(s.img(), n.img(), n.ps(), p));
        assert(n.used(p) == s.used(p));
    }
}

/// Pages outside of everything were written over.
pub(crate) proof fn lemma_scribbled_over(s: RmdbWTxn, n: RmdbWTxn)
    requires
        s.inv(),
        n.same_base(s),
        n.same_tree(s),
        n.np() == s.np(),
        n.rmdb.wr.freepages == s.rmdb.wr.freepages,
        n.rmdb.wr.ok(n.ps()),
        n.deletepages == s.deletepages,
        n.dirtypages == s.dirtypages,
        forall|p: int|
            #![trigger same_page(s.img(), n.img(), n.ps(), p)]
            s.used(p) || s.kept(p) ==> same_page(s.img(), n.img(), n.ps(), p),
    ensures
        n.inv(),
        forall|p: int, k: Role| #[trigger] n.new_page(p, k) == s.new_page(p, k),
{
    reveal(RmdbWTxn::inv);
    assert forall|p: int| #[trigger] n.free(p) == s.free(p) by {}
    assert forall|p: int| #[trigger] n.kept(p) == s.kept(p) by {}
    assert forall|p: int| #[trigger] n.used(p) == s.used(p) by {}
    assert(n.deleted_ok()) by {
        assert forall|p: int| #[trigger] n.deleted(p) implies n.loose(p) && !in_map(n.base@, p) by {
            assert(s.deleted(p));
            assert(s.loose(p));
        }
    }
    assert(n.dirty_ok()) by {
        assert forall|p: int| #[trigger] n.dirty(p) implies 1 <= p < n.np() && !n.free(p) && !n.kept(
            p,
        ) && !plays(n.tree@, p, Role::Data) by {
            assert(s.dirty(p));
        }
    }
    lemma_outside_change(s, n);
}

/// A page outside of everything was freed, or lost.
proof fn lemma_freed(s: RmdbWTxn, n: RmdbWTxn, c: int)
    requires
        s.inv(),
        n.same_base(s),
        n.same_tree(s),
        n.np() == s.np(),
        n.img() == s.img(),
        n.rmdb.wr.ok(n.ps()),
        n.deletepages == s.deletepages,
        s.loose(c),
        !s.kept(c),
        !s.deleted(c),
        forall|p: int| #[trigger] n.free(p) ==> s.free(p) || p == c,
        forall|p: int| #[trigger] n.dirty(p) <==> s.dirty(p) && p != c,
    ensures
        n.inv(),
        n.step_but(s, c),
{
    reveal(RmdbWTxn::inv);
    assert forall|p: int| #[trigger] n.kept(p) == s.kept(p) by {}
    assert forall|p: int| #[trigger] n.used(p) == s.used(p) by {}
    assert(n.deleted_ok()) by {
        assert forall|p: int| #[trigger] n.deleted(p) implies n.loose(p) && !in_map(n.base@, p) by {
            assert(s.deleted(p));
            assert(s.loose(p));
        }
    }
    assert(n.dirty_ok()) by {
        assert forall|p: int| #[trigger] n.dirty(p) implies 1 <= p < n.np() && !n.free(p) && !n.kept(
            p,
        ) && !plays(n.tree@, p, Role::Data) by {
            assert(s.dirty(p));
        }
    }
    lemma_outside_change(s, n);
    assert forall|p: int| #![trigger s.loose(p)] s.loose(p) && p != c implies n.loose(p)
        && same_page(s.img(), n.img(), n.ps(), p) && n.deleted(p) == s.deleted(p) && n.dirty(p)
        == s.dirty(p) by {
        assert(n.used(p) == s.used(p));
        assert(!n.free(p));
        assert(n.dirty(p) <==> s.dirty(p) && p != c);
    }
}

/// A page outside of the tree was listed as one to be free.
proof fn lemma_deleted(s: RmdbWTxn, n: RmdbWTxn, x: u32)
    requires
        s.inv(),
        n.same_base(s),
        n.same_tree(s),
        n.rmdb == s.rmdb,
        n.dirtypages == s.dirtypages,
        n.deletepages@ == s.deletepages@.push(x),
        s.loose(x as int),
        !s.deleted(x as int),
        !in_map(s.base@, x as int),
    ensures
        n.inv(),
        n.step_but(s, x as int),
{
    reveal(RmdbWTxn::inv);
    let c = x as int;
    lemma_among_push(s.deletepages@, x);
    assert forall|p: int| #[trigger] n.kept(p) == s.kept(p) by {}
    assert forall|p: int| #[trigger] n.used(p) == s.used(p) by {}
    assert forall|p: int| #[trigger] n.free(p) == s.free(p) by {}
    assert forall|p: int| #[trigger] n.deleted(p) <==> s.deleted(p) || p == c by {
        assert(among(s.deletepages@.push(x), p) <==> among(s.deletepages@, p) || p == x);
    }
    assert(n.deleted_ok()) by {
        assert(n.deletepages@.no_duplicates()) by {
            let d = s.deletepages@;
            assert forall|i: int, j: int|
                0 <= i < d.push(x).len() && 0 <= j < d.push(x).len() && i != j implies d.push(x)[i]
                != d.push(x)[j] by {
                if i == d.len() {
                    assert(d[j] != x) by {
                        if d[j] == x {
                            assert(s.deleted(c));
                        }
                    }
                } else if j == d.len() {
                    assert(d[i] != x) by {
                        if d[i] == x {
                            assert(s.deleted(c));
                        }
                    }
                }
            }
        }
        assert forall|p: int| #[trigger] n.deleted(p) implies n.loose(p) && !in_map(n.base@, p) by {
            if p != c {
                assert(s.deleted(p));
            }
            assert(s.loose(p));
        }
    }
    assert(n.dirty_ok()) by {
        assert forall|p: int| #[trigger] n.dirty(p) implies 1 <= p < n.np() && !n.free(p) && !n.kept(
            p,
        ) && !plays(n.tree@, p, Role::Data) by {
            assert(s.dirty(p));
        }
    }
    lemma_outside_change(s, n);
    assert forall|p: int| #![trigger s.loose(p)] s.loose(p) && p != c implies n.loose(p)
        && same_page(s.img(), n.img(), n.ps(), p) && n.deleted(p) == s.deleted(p) && n.dirty(p)
        == s.dirty(p) by {
        assert(n.used(p) == s.used(p));
        assert(n.deleted(p) <==> s.deleted(p) || p == c);
    }
}

/// A page was copied over a new one.
proof fn lemma_copied(
    s0: RmdbWTxn,
    s1: RmdbWTxn,
    s2: RmdbWTxn,
    n: RmdbWTxn,
    source: int,
    c: int,
)
    requires
        s0.inv(),
        1 <= source < s0.np(),
        !s0.free(source),
        s1.inv(),
        s1.step(s0),
        s1.same_tree(s0),
        s1.dirtypages == s0.dirtypages,
        s1.deletepages == s0.deletepages,
        s1.new_page(c, Role::Data),
        !s0.loose(c),
        !s0.used(c),
        forall|p: int| #[trigger] same_page(s0.img(), s1.img(), s1.ps(), p),
        s2.inv(),
        s2.step_but(s1, c),
        s2.same_tree(s1),
        s2.rmdb.wr.ls() == s1.rmdb.wr.ls(),
        s2.deletepages == s1.deletepages,
        s2.np() == s1.np(),
        s2.dirty(c),
        forall|p: int| p != c ==> #[trigger] same_page(s1.img(), s2.img(), s2.ps(), p),
        forall|p: int| p != c ==> (#[trigger] s2.dirty(p) <==> s1.dirty(p)),
        n.same_base(s2),
        n.same_tree(s2),
        n.np() == s2.np(),
        n.rmdb.wr.freepages == s2.rmdb.wr.freepages,
        n.img().len() == s2.img().len(),
        n.deletepages == s2.deletepages,
        n.dirtypages == s2.dirtypages,
        forall|p: int| p != c ==> #[trigger] same_page(s2.img(), n.img(), n.ps(), p),
        page(n.img(), n.ps(), c) == page(s2.img(), n.ps(), source),
    ensures
        n.inv(),
        n.step(s0),
        n.new_page(c, Role::Node),
        page(n.img(), n.ps(), c) == page(s0.img(), n.ps(), source),
        forall|p: int| p != c ==> #[trigger] same_page(s0.img(), n.img(), n.ps(), p),
        forall|p: int| p != c ==> (#[trigger] n.dirty(p) <==> s0.dirty(p)),
{
    reveal(RmdbWTxn::inv);
    s0.rmdb.wr.lemma_pages_in(s0.ps(), source);
    assert(source != c) by {
        if source == c {
            assert(!s0.used(c));
            assert(s0.loose(c));
        }
    }
    assert(same_page(s0.img(), s1.img(), n.ps(), source));
    assert(same_page(s1.img(), s2.img(), n.ps(), source));
    assert forall|p: int| p != c implies #[trigger] same_page(s0.img(), n.img(), n.ps(), p) by {
        assert(same_page(s0.img(), s1.img(), n.ps(), p));
        assert(same_page(s1.img(), s2.img(), n.ps(), p));
        assert(same_page(s2.img(), n.img(), n.ps(), p));
    }
    assert(s2.used(c) == s1.used(c));
    assert(s2.free(c) == s1.free(c));
    assert(s2.kept(c) == s1.kept(c));
    assert(s2.loose(c));
    lemma_scribbled(s2, n, c);
    assert(n.deleted(c) == s1.deleted(c));
    lemma_step_chain(s0, s1, s2, 0, c);
    lemma_step_chain(s0, s2, n, 0, c);
    assert forall|p: int| p != c implies (#[trigger] n.dirty(p) <==> s0.dirty(p)) by {
        assert(s2.dirty(p) <==> s1.dirty(p));
    }
}

/// Two steps are one, where the page that the second takes up came with the first.
pub(crate) proof fn lemma_step_chain(s0: RmdbWTxn, s1: RmdbWTxn, s2: RmdbWTxn, x: int, y: int)
    requires
        s1.step_but(s0, x),
        s2.step_but(s1, y),
        y == x || !s0.loose(y),
    ensures
        s2.step_but(s0, x),
{
    assert forall|p: int| #[trigger] s0.kept(p) implies same_page(
        s0.img(),
        s2.img(),
        s2.ps(),
        p,
    ) by {
        assert(s1.kept(p));
        assert(same_page(s0.img(), s1.img(), s1.ps(), p));
        assert(same_page(s1.img(), s2.img(), s2.ps(), p));
    }
    assert forall|p: int| #![trigger s0.loose(p)] s0.loose(p) && p != x implies s2.loose(p)
        && same_page(s0.img(), s2.img(), s2.ps(), p) && s2.deleted(p) == s0.deleted(p) && s2.dirty(
        p,
    ) == s0.dirty(p) by {
        assert(s1.loose(p));
    }
}

} // verus!
