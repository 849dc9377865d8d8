//! Adding an entry: its leaf is written to new pages, then put into the tree.
use crate::blocks::run_of;
use crate::bytes::{get_u16, get_u32, in_img, page, same_page, set_run, u32_at};
use crate::cow::{lemma_node, lemma_room};
use crate::error::RmdbError;
use crate::fetch::{leaf_no, leaf_of, lemma_trail_last, lemma_types, nums, RmdbFetch};
use crate::flags::RmdbFlags;
use crate::freemap::room_for_map;
use crate::layout::{
    align, topptr, Layout, LEAF_KEYPTRS, NODE_FIRSTPTR, NODE_NUMPTRS, PAGE_LEAF, POS_PAGETYPE,
    PTRSZ,
};
use crate::leaf::{blank_around, far_pages, leaf_fits, lemma_blank, too_long, write_far, write_near};
use crate::options::RMDB_INTGSIZE;
use crate::path::{is_key, last_node, lemma_depth, lemma_trail_len, lemma_way, reaches, way};
use crate::store::room_for;
use crate::tree::{bushy, distinct, entries, far_data, height, holds, plays, Role, Tree};
use crate::txn::finds;
use crate::wtxn::{lemma_basics, lemma_scribbled_over, RmdbWTxn};
use vstd::prelude::*;

verus! {

/// The mark of a leaf that came into the tree.
proof fn lemma_new_mark(s: RmdbWTxn, m: RmdbWTxn, n: RmdbWTxn, l: Tree)
    requires
        m.same_base(s),
        m.same_tree(s),
        m.pending(l),
        n.same_base(m),
        l->right,
        n.marks() == m.marks().insert(l->key, l.entry().2),
    ensures
        n.got_leaf(s, l->key),
{
    assert(plays(l, l.pg(), Role::Leaf));
    assert(m.new_page(l.pg(), Role::Leaf));
    assert(n.kept(l.pg()) == m.kept(l.pg()));
    assert(n.marks()[l->key] == l.entry().2);
}

impl RmdbWTxn {
    /// Whether the entry can be added or is refused: it fits in a leaf, a search for its key
    /// ends where a leaf can stand, and the database can grow by what it may take.
    pub open spec fn can_add(self, key: Seq<u8>, value: Seq<u8>) -> bool {
        let k = key.len() as int;
        let v = value.len() as int;
        ||| too_long(self.lay(), k, v)
        ||| {
            &&& leaf_fits(self.lay(), k, v)
            &&& is_key(entries(self.tree@), key) || reaches(self.tree@, key)
            &&& room_for(
                self.np(),
                self.ps(),
                far_pages(self.lay(), k, v) + 15 * height(self.tree@) + 15,
            )
        }
    }

    /// Whether a search for any key ends where a leaf can stand: no node of nodes has a
    /// single child.
    pub open spec fn takes_all(self) -> bool {
        &&& bushy(self.tree@)
        &&& forall|key: Seq<u8>| #[trigger] reaches(self.tree@, key)
    }

    /// Whether the key has a leaf that the transaction made, and all others have the leaves
    /// that they had in `s`.
    pub open spec fn got_leaf(self, s: RmdbWTxn, key: Seq<u8>) -> bool {
        &&& self.marks() == s.marks().insert(key, self.marks()[key])
        &&& self.marks()[key].right
        &&& !self.kept(self.marks()[key].page)
    }

    /// What setting the value of a key comes to.
    pub open spec fn added(
        self,
        s: RmdbWTxn,
        key: Seq<u8>,
        value: Seq<u8>,
        r: Result<(), RmdbError>,
    ) -> bool {
        match r {
            Ok(_) => {
                &&& !too_long(s.lay(), key.len() as int, value.len() as int)
                &&& self.inv()
                &&& self.same_base(s)
                &&& self@ == s@.insert(key, value)
                &&& self.got_leaf(s, key)
                &&& self.np() <= s.np() + 2 * far_pages(
                    s.lay(),
                    key.len() as int,
                    value.len() as int,
                ) + 27 * height(s.tree@) + 27
                &&& height(self.tree@) <= height(s.tree@) + 1
                &&& leaf_of(self.tree@, key)->count == far_pages(
                    s.lay(),
                    key.len() as int,
                    value.len() as int,
                )
                &&& bushy(s.tree@) ==> self.takes_all()
                &&& is_key(entries(s.tree@), key) ==> self.deleted(
                    leaf_no(s.tree@, key),
                ) && height(self.tree@) == height(s.tree@)
                &&& !is_key(entries(s.tree@), key) ==> self.filled(s, key)
                &&& s.lay().flags.has(RmdbFlags::ZERO_PAGES) ==> blank_around(
                    page(self.img(), self.ps(), self.marks()[key].page),
                    s.lay(),
                    key.len() as int,
                    value.len() as int,
                    far_pages(s.lay(), key.len() as int, value.len() as int),
                )
            },
            Err(e) => {
                &&& too_long(s.lay(), key.len() as int, value.len() as int)
                &&& e is InvalidDataSize
                &&& self == s
            },
        }
    }

    /// Sets the value of a key, whether it is new or has a value already. A key that is
    /// too long for a leaf, where the value is short, is refused.
    pub fn add_entry(&mut self, key: &[u8], value: &[u8]) -> (r: Result<(), RmdbError>)
        requires
            old(self).inv(),
            old(self).can_add(key@, value@),
        ensures
            final(self).added(*old(self), key@, value@, r),
            r is Ok ==> final(self)@ == old(self)@.insert(key@, value@),
            r is Err ==> *final(self) == *old(self),
            r is Err <==> value.len() <= old(self).rmdb.layout.pagesize
                && old(self).rmdb.layout.pagesize - (if old(self).rmdb.layout.flags.bits & 1 == 1 {
                64int
            } else {
                0int
            }) < 8 + (key.len() + 3) / 4 * 4,
    {
        let ghost s0 = *self;
        proof {
            lemma_basics(s0);
        }
        let lay: Layout = self.rmdb.layout;
        proof {
            lemma_size_fits(lay, s0, key@, value@);
        }
        let pages: usize = match pages_for(lay, key, value) {
            Some(pages) => pages,
            None => {
                return Err(RmdbError::InvalidDataSize);
            },
        };
        let ghost h = height(s0.tree@);
        proof {
            lemma_room(s0.np(), s0.ps(), pages + 15 * h + 15, s0.np(), pages + 1);
        }
        let (leaf, Ghost(l)) = self.write_leaf(key, value, pages);
        let ghost s1 = *self;
        let found: Result<u32, RmdbError>;
        {
            proof {
                lemma_basics(s1);
                lemma_room(s0.np(), s0.ps(), pages + 15 * h + 15, s1.np(), 5 * (3 * h + 2));
                lemma_room(s0.np(), s0.ps(), pages + 15 * h + 15, s1.np(), 5 * h);
            }
            let fetch = RmdbFetch::new(lay, self.rmdb.wr.mmap.as_slice(), self.rootpage);
            found = fetch.get_leaf(key, Ghost(s1.tree@));
        }
        let r: Result<(), RmdbError> = match found {
            Ok(curleaf) => self.replace_leaf(curleaf, leaf, Ghost(l)),
            Err(_) => self.add_leaf(leaf, key, Ghost(l)),
        };
        proof {
            lemma_new_mark(s0, s1, *self, l);
            if bushy(s0.tree@) {
                lemma_takes_all(*self);
            }
            if is_key(entries(s0.tree@), key@) {
                let d = self.deletepages@;
                assert(d[d.len() - 1] == leaf_no(s0.tree@, key@));
            }
        }
        r
    }

    /// Writes a leaf to new pages.
    fn write_leaf(&mut self, key: &[u8], value: &[u8], pages: usize) -> (r: (u32, Ghost<Tree>))
        requires
            old(self).inv(),
            leaf_fits(old(self).lay(), key.len() as int, value.len() as int),
            pages == far_pages(old(self).lay(), key.len() as int, value.len() as int),
            pages < usize::MAX,
            room_for(old(self).np(), old(self).ps(), pages + 1),
        ensures
            final(self).inv(),
            final(self).same_base(*old(self)),
            final(self).same_tree(*old(self)),
            final(self).np() <= old(self).np() + 2 * (pages + 1) + 7,
            final(self).pending(r.1@),
            r.1@.pg() == r.0,
            r.1@->key == key@,
            r.1@->val == value@,
            r.1@->count == pages,
            r.1@->right,
            old(self).lay().flags.has(RmdbFlags::ZERO_PAGES) ==> blank_around(
                page(final(self).img(), final(self).ps(), r.0 as int),
                old(self).lay(),
                key.len() as int,
                value.len() as int,
                pages as int,
            ),
    {
        let ghost s0 = *self;
        let lay: Layout = self.rmdb.layout;
        proof {
            lemma_basics(s0);
        }
        let pagevec: Vec<u32> = self.take_pages(pages + 1, true);
        let leaf: u32 = pagevec[0];
        let ghost s1 = *self;
        proof {
            assert(s1.new_page(pagevec@[0] as int, Role::Data));
            lemma_basics(s1);
            assert forall|p: int| leaf <= p <= leaf + pages implies #[trigger] s1.new_page(
                p,
                Role::Data,
            ) by {
                assert(run_of(leaf, pages + 1)[p - leaf] == (leaf + (p - leaf)) as u32);
                assert(s1.new_page(pagevec@[p - leaf] as int, Role::Data));
            }
        }
        self.mark_dirty(leaf, true);
        let ghost s2 = *self;
        proof {
            lemma_basics(s2);
            s2.rmdb.wr.lemma_pages_in(s2.ps(), leaf as int);
            s2.rmdb.wr.lemma_pages_in(s2.ps(), leaf + pages);
            assert forall|p: int| leaf < p <= leaf + pages implies #[trigger] s2.new_page(
                p,
                Role::Data,
            ) by {
                assert(s1.new_page(p, Role::Data));
                assert(s1.loose(p));
                assert(s2.kept(p) == s1.kept(p));
            }
            assert(s2.new_page(leaf as int, Role::Leaf)) by {
                assert(s1.new_page(leaf as int, Role::Data));
                assert(s2.used(leaf as int) == s1.used(leaf as int));
                assert(s2.free(leaf as int) == s1.free(leaf as int));
                assert(s2.kept(leaf as int) == s1.kept(leaf as int));
                assert(s2.deleted(leaf as int) == s1.deleted(leaf as int));
            }
        }
        let ghost first = if pages > 0 {
            leaf + 1
        } else {
            0
        };
        let ghost l = Tree::Leaf {
            page: leaf as int,
            key: key@,
            val: value@,
            first,
            count: pages as int,
            right: true,
        };
        if pages > 0 {
            let at: u32 = leaf + 1;
            proof {
                let n: int = value.len() as int;
                let k: int = s0.ps();
                let f: int = pages as int;
                assert(n <= f * k) by (nonlinear_arith)
                    requires
                        f == (n + k - 1) / k || f == 1 && n <= k,
                        k >= 1,
                        n >= 0,
                ;
            }
            set_run(&mut self.rmdb.wr.mmap, lay.pagesize, at, value, Ghost(pages as int));
            let ghost s3 = *self;
            assert(in_img(s3.img(), s3.ps(), leaf as int));
            assert(same_page(s2.img(), s3.img(), s3.ps(), leaf as int));
            write_far(&mut self.rmdb.wr.mmap, lay, leaf, key, value, at, Ghost(pages as int));
            proof {
                assert forall|p: int|
                    at <= p < at + pages implies #[trigger] same_page(
                    s3.img(),
                    self.img(),
                    lay.ps(),
                    p,
                ) by {}
                assert(in_img(s3.img(), lay.ps(), at + pages - 1));
                assert(in_img(self.img(), lay.ps(), at + pages - 1));
                crate::bytes::lemma_run_same(
                    s3.img(),
                    self.img(),
                    lay.ps(),
                    at as int,
                    pages as int,
                    value.len() as int,
                );
                assert(far_data(self.img(), lay, value@, first, pages as int));
                assert forall|p: int|
                    !(leaf <= p <= leaf + pages) implies #[trigger] same_page(
                    s2.img(),
                    self.img(),
                    lay.ps(),
                    p,
                ) by {
                    assert(same_page(s2.img(), s3.img(), lay.ps(), p));
                    assert(same_page(s3.img(), self.img(), lay.ps(), p));
                }
            }
        } else {
            write_near(&mut self.rmdb.wr.mmap, lay, leaf, key, value);
        }
        proof {
            assert forall|p: int|
                #![trigger same_page(s2.img(), self.img(), self.ps(), p)]
                s2.used(p) || s2.kept(p) implies same_page(s2.img(), self.img(), self.ps(), p) by {
                if leaf <= p <= leaf + pages {
                    if p == leaf {
                        assert(s2.new_page(p, Role::Leaf));
                    } else {
                        assert(s2.new_page(p, Role::Data));
                    }
                }
            }
            lemma_scribbled_over(s2, *self);
            assert(in_img(self.img(), lay.ps(), leaf as int));
            if lay.flags.has(RmdbFlags::ZERO_PAGES) {
                s1.rmdb.wr.lemma_pages_in(s1.ps(), leaf as int);
                lemma_blank(
                    page(s1.img(), lay.ps(), leaf as int),
                    page(s2.img(), lay.ps(), leaf as int),
                    page(self.img(), lay.ps(), leaf as int),
                    lay,
                    key.len() as int,
                    value.len() as int,
                    pages as int,
                );
            }
            assert(holds(self.img(), lay, l, 0, false));
            assert(distinct(l));
            assert forall|p: int, k: Role| #[trigger] plays(l, p, k) implies self.new_page(p, k) by {
                assert(s2.new_page(p, k));
            }
        }
        (leaf, Ghost(l))
    }
}

/// In a bushy tree every search ends where a leaf can stand.
pub(crate) proof fn lemma_takes_all(s: RmdbWTxn)
    requires
        s.inv(),
        bushy(s.tree@),
    ensures
        s.takes_all(),
{
    let t = s.tree@;
    lemma_basics(s);
    assert forall|key: Seq<u8>| #[trigger] reaches(t, key) by {
        lemma_way(s.img(), s.lay(), t, height(t), true, key);
    }
}

/// How many pages besides the leaf the value takes; none where the key is too long.
fn pages_for(lay: Layout, key: &[u8], value: &[u8]) -> (r: Option<usize>)
    requires
        lay.ok(),
        value.len() + lay.ps() + 1 <= usize::MAX,
    ensures
        match r {
            Some(pages) => !too_long(lay, key.len() as int, value.len() as int) && pages
                == far_pages(lay, key.len() as int, value.len() as int),
            None => too_long(lay, key.len() as int, value.len() as int),
        },
{
    let mut leaf_payload: usize = lay.payload;
    if lay.flags.contains(RmdbFlags::PAGE_INTEGRITY) {
        leaf_payload = leaf_payload - RMDB_INTGSIZE;
    }
    let datasize: usize = value.len();
    let ps: usize = lay.pagesize;
    let mut pages: usize = 1;
    if datasize > ps {
        pages = (datasize + ps - 1) / ps;
    } else {
        if key.len() > leaf_payload {
            return None;
        }
        let overhead: usize = PTRSZ + LEAF_KEYPTRS + align(key.len());
        if leaf_payload < overhead {
            return None;
        }
        let avail_space: usize = leaf_payload - overhead;
        if avail_space > datasize {
            pages = 0;
        }
    }
    Some(pages)
}

/// The size of a value that can be added is no more than the machine can count.
proof fn lemma_size_fits(lay: Layout, s: RmdbWTxn, key: Seq<u8>, value: Seq<u8>)
    requires
        lay == s.lay(),
        lay.ok(),
        s.can_add(key, value),
        s.np() >= 0,
        height(s.tree@) >= 0,
    ensures
        value.len() + lay.ps() + 1 <= usize::MAX,
{
    let n = value.len() as int;
    let k = lay.ps();
    let f = (n + k - 1) / k;
    if n > k {
        let all = s.np() + 2 * (f + 15 * height(s.tree@) + 15) + 8;
        assert(n + k + 1 <= all * k) by (nonlinear_arith)
            requires
                f == (n + k - 1) / k,
                f + 3 <= all,
                k >= 1,
                n >= 0,
        ;
        assert(far_pages(lay, key.len() as int, n) == f);
        assert(all * k <= usize::MAX);
    }
}

/// Whether the database can still grow by what `n` pages in a row need.
fn room_for_at(np: u32, ps: usize, n: u64) -> (r: bool)
    requires
        ps >= 1,
        n <= 0x2000_0000_0000_0000,
    ensures
        r == room_for(np as int, ps as int, n as int),
{
    let all: u64 = np as u64 + 2 * n + 7;
    if all > 0xffff_ffff {
        return false;
    }
    let most: usize = usize::MAX / ps;
    proof {
        let (a, m, k) = (all + 1, most as int, ps as int);
        assert((a <= m) == (a * k <= usize::MAX)) by (nonlinear_arith)
            requires
                m == usize::MAX as int / k,
                k >= 1,
                a >= 0,
        ;
    }
    all + 1 <= most as u64
}

impl RmdbWTxn {
    /// The value of a key as the transaction sees it, in one piece.
    pub fn get_entry(&self, key: &[u8]) -> (r: Result<Vec<&[u8]>, RmdbError>)
        requires
            self.inv(),
        ensures
            finds(self@, self.marks()[key@].right, key@, r),
    {
        let ghost t = self.tree@;
        let ghost l = crate::txn::leaf_at(t, crate::contents::place(entries(t), key@));
        proof {
            lemma_basics(*self);
            if is_key(entries(t), key@) {
                crate::txn::lemma_found(self.img(), self.lay(), self.rootpage as int, t, key@);
                let q = crate::path::way(t, key@).push(crate::path::slot(t, key@));
                crate::tree::lemma_holds_sub(
                    self.img(),
                    self.lay(),
                    t,
                    q,
                    height(t),
                    true,
                );
            }
        }
        if self.rootpage == 0 {
            return Err(RmdbError::KeyNotFound);
        }
        let fetch = RmdbFetch::new(
            self.rmdb.layout,
            self.rmdb.wr.mmap.as_slice(),
            self.rootpage,
        );
        let leaf: u32 = match fetch.get_leaf(key, Ghost(t)) {
            Ok(leaf) => leaf,
            Err(e) => {
                return Err(e);
            },
        };
        fetch.get_data(leaf, key, true, Ghost(l))
    }

    /// How many levels of nodes the tree has, if a search for the key ends where a leaf can
    /// stand.
    fn levels(&self, key: &[u8]) -> (r: Option<usize>)
        requires
            self.inv(),
        ensures
            match r {
                Some(h) => reaches(self.tree@, key@) && h == height(self.tree@),
                None => !reaches(self.tree@, key@) && !is_key(entries(self.tree@), key@),
            },
    {
        let ghost t = self.tree@;
        let ghost w = way(t, key@);
        let ghost n = last_node(t, key@);
        let lay: Layout = self.rmdb.layout;
        let ps: usize = lay.pagesize;
        proof {
            lemma_basics(*self);
            lemma_types();
            lemma_way(self.img(), self.lay(), t, height(t), true, key@);
            lemma_node(*self, w);
            lemma_trail_last(t, w);
            lemma_trail_len(t, w);
        }
        let img: &[u8] = self.rmdb.wr.mmap.as_slice();
        let fetch = RmdbFetch::new(lay, img, self.rootpage);
        let parents: Vec<u32> = match fetch.get_parents(key, Ghost(t)) {
            Ok(parents) => parents,
            Err(_) => {
                assert(false);
                return None;
            },
        };
        assert(nums(parents@).last() == parents@.last());
        let last: u32 = parents[parents.len() - 1];
        let nptrs: u16 = get_u16(img, ps, last, NODE_NUMPTRS);
        if nptrs == 0 {
            assert(w.len() == 0);
            return Some(parents.len());
        }
        let child: u32 = get_u32(img, ps, last, NODE_FIRSTPTR);
        proof {
            let k = n.kids()[0];
            assert(holds(
                self.img(),
                self.lay(),
                k,
                height(t) - w.len() - 1,
                false,
            ));
            assert(u32_at(page(self.img(), self.ps(), last as int), topptr(0)) == k.pg());
        }
        let ctype: u16 = get_u16(img, ps, child, POS_PAGETYPE);
        if ctype & PAGE_LEAF == PAGE_LEAF {
            Some(parents.len())
        } else {
            None
        }
    }

    /// Whether the entry can be added or is refused.
    pub fn check_add(&self, key: &[u8], value: &[u8]) -> (r: bool)
        requires
            self.inv(),
        ensures
            r == self.can_add(key@, value@),
    {
        let lay: Layout = self.rmdb.layout;
        let ps: usize = lay.pagesize;
        let ghost t = self.tree@;
        proof {
            lemma_basics(*self);
            if self.can_add(key@, value@) {
                lemma_size_fits(lay, *self, key@, value@);
            }
        }
        if value.len() > usize::MAX - ps - 1 {
            return false;
        }
        let pages: usize = match pages_for(lay, key, value) {
            Some(pages) => pages,
            None => {
                return true;
            },
        };
        if key.len() > 0x7fff {
            return false;
        }
        let dataptr: usize = align(10 + key.len());
        if pages == 0 {
            if value.len() > 0xffff || dataptr + 2 + value.len() > lay.payload {
                return false;
            }
        } else {
            let far: usize = if lay.flags.contains(RmdbFlags::PAGE_INTEGRITY) {
                40
            } else {
                8
            };
            if value.len() as u64 > 0xffff_ffff || dataptr + far > lay.payload {
                return false;
            }
        }
        proof {
            lemma_depth(self.img(), self.lay(), t, height(t), true);
            let (n, k) = (value.len() as int, ps as int);
            assert((n + k - 1) / k <= n + k + 1) by (nonlinear_arith)
                requires
                    n >= 0,
                    k >= 1,
            ;
            let (a, b) = (self.img().len() as int, lay.ps());
            assert(a / b <= a / 128) by (nonlinear_arith)
                requires
                    a >= 0,
                    b >= 128,
            ;
            lemma_way(self.img(), self.lay(), t, height(t), true, key@);
        }
        let _len: usize = self.rmdb.wr.mmap.len();
        match self.levels(key) {
            Some(h) => room_for_at(
                self.rmdb.wr.num_pages,
                ps,
                pages as u64 + 15 * h as u64 + 15,
            ),
            None => false,
        }
    }

    /// Whether the key can be removed or is not there.
    pub fn check_del(&self, key: &[u8]) -> (r: bool)
        requires
            self.inv(),
        ensures
            r == self.can_del(key@),
    {
        let ghost t = self.tree@;
        proof {
            lemma_basics(*self);
            lemma_way(self.img(), self.lay(), t, height(t), true, key@);
            lemma_depth(self.img(), self.lay(), t, height(t), true);
            let (a, b) = (self.img().len() as int, self.ps());
            assert(a / b <= a / 128) by (nonlinear_arith)
                requires
                    a >= 0,
                    b >= 128,
            ;
        }
        let _len: usize = self.rmdb.wr.mmap.len();
        let fetch = RmdbFetch::new(
            self.rmdb.layout,
            self.rmdb.wr.mmap.as_slice(),
            self.rootpage,
        );
        match fetch.get_leaf(key, Ghost(t)) {
            Ok(_) => match self.levels(key) {
                Some(h) => room_for_at(
                    self.rmdb.wr.num_pages,
                    self.rmdb.layout.pagesize,
                    5 * h as u64,
                ),
                None => {
                    assert(false);
                    false
                },
            },
            Err(_) => true,
        }
    }

    /// Whether the changes can be saved: there is room for the map of free pages.
    pub fn check_commit(&self) -> (r: bool)
        requires
            self.inv(),
        ensures
            r == room_for_map(self.np(), self.ps()),
    {
        proof {
            lemma_basics(*self);
        }
        crate::db::room_for_map_at(self.rmdb.wr.num_pages as usize, self.rmdb.layout.pagesize)
    }
}

} // verus!
