//! Read transactions, and cursors that follow the order of keys.
use crate::bytes::{in_img, page, u32_at};
use crate::contents::{contents, lemma_place, marks, place};
use crate::db::{Rmdb, RmdbTxnState};
use crate::error::RmdbError;
use crate::fetch::{
    chain_after, key_in, leaf_no, leftmost, lemma_next_pages, lemma_node_hit, lemma_trail_last,
    lemma_types, nums, passed, search, sum_in, value_in, Hit, Next, RmdbFetch,
};
use crate::layout::{topptr, Layout, PAGE_LEAF};
use crate::path::{
    good, is_key, leads_to, lemma_depth, lemma_push, lemma_stands, lemma_trail_len, lemma_way, slot,
    stands_at, too_big, too_small, trail, way,
};
use crate::saved::{is_index, page_type};
use crate::tree::{
    before, entries, entries_of, height, holds, leads, lemma_entries_join, lemma_entries_one,
    lemma_has_sub, lemma_holds_sub, lemma_page_root, part, plays, Entry, Role, Tree,
};
use vstd::prelude::*;

verus! {

/// The way to the leaf with the `i`-th entry.
pub open spec fn way_to(t: Tree, i: int) -> Seq<int> {
    choose|q: Seq<int>| #[trigger] ends_at(t, q, i)
}

/// Whether `q` leads to the leaf with the `i`-th entry.
pub open spec fn ends_at(t: Tree, q: Seq<int>, i: int) -> bool {
    leads(t, q) && part(t, q) is Leaf && before(t, q).len() == i
}

/// The leaf with the `i`-th entry.
pub open spec fn leaf_at(t: Tree, i: int) -> Tree {
    part(t, way_to(t, i))
}

/// The entries of the first trees of a row are no more than those of some more.
proof fn lemma_take_len(kids: Seq<Tree>, a: int, b: int)
    requires
        0 <= a < b <= kids.len(),
    ensures
        entries_of(kids.take(a)).len() + entries(kids[a]).len() <= entries_of(kids.take(b)).len(),
{
    let x = kids.take(a);
    let y = kids.subrange(a + 1, b);
    lemma_entries_join(x, seq![kids[a]]);
    lemma_entries_one(kids[a]);
    lemma_entries_join(x + seq![kids[a]], y);
    assert(kids.take(b) =~= x + seq![kids[a]] + y);
}

/// One way leads to each leaf.
proof fn lemma_one_way(
    img: Seq<u8>,
    lay: Layout,
    t: Tree,
    h: int,
    top: bool,
    q: Seq<int>,
    r: Seq<int>,
)
    requires
        holds(img, lay, t, h, top),
        leads(t, q),
        leads(t, r),
        part(t, q) is Leaf,
        part(t, r) is Leaf,
        before(t, q).len() == before(t, r).len(),
    ensures
        q == r,
    decreases t,
{
    match t {
        Tree::Leaf { .. } => {
            assert(q =~= r);
        },
        Tree::Node { kids, .. } => {
            let (a, b) = (q[0], r[0]);
            let (q1, r1) = (q.drop_first(), r.drop_first());
            lemma_stands(kids[a], q1);
            lemma_stands(kids[b], r1);
            if a < b {
                lemma_take_len(kids, a, b);
            } else if b < a {
                lemma_take_len(kids, b, a);
            } else {
                lemma_one_way(img, lay, kids[a], h - 1, false, q1, r1);
                assert(q =~= seq![a] + q1);
                assert(r =~= seq![b] + r1);
            }
        },
    }
}

/// The leaf at the end of a way is the one with its entry.
proof fn lemma_leaf_at(img: Seq<u8>, lay: Layout, t: Tree, h: int, q: Seq<int>)
    requires
        holds(img, lay, t, h, true),
        leads(t, q),
        part(t, q) is Leaf,
    ensures
        leaf_at(t, before(t, q).len() as int) == part(t, q),
        before(t, q).len() < entries(t).len(),
        entries(t)[before(t, q).len() as int] == part(t, q).entry(),
{
    let i = before(t, q).len() as int;
    lemma_stands(t, q);
    assert(ends_at(t, q, i));
    lemma_one_way(img, lay, t, h, true, q, way_to(t, i));
}

/// Where a search finds a key.
pub(crate) proof fn lemma_found(img: Seq<u8>, lay: Layout, root: int, t: Tree, key: Seq<u8>)
    requires
        good(img, lay, root, t),
        is_key(entries(t), key),
    ensures
        ({
            let q = way(t, key).push(slot(t, key));
            let i = place(entries(t), key);
            &&& leads(t, q)
            &&& part(t, q) is Leaf
            &&& part(t, q)->key == key
            &&& part(t, q).pg() == leaf_no(t, key)
            &&& before(t, q).len() == i
            &&& trail(t, q) == trail(t, way(t, key)).push(leaf_no(t, key))
            &&& leaf_at(t, i) == part(t, q)
            &&& holds(img, lay, part(t, q), 0, false)
            &&& 0 <= i < entries(t).len()
            &&& entries(t)[i] == part(t, q).entry()
            &&& contents(entries(t)).dom().contains(key)
            &&& contents(entries(t))[key] == part(t, q)->val
            &&& marks(entries(t))[key] == part(t, q).entry().2
        }),
{
    let h = height(t);
    let w = way(t, key);
    let q = w.push(slot(t, key));
    lemma_way(img, lay, t, h, true, key);
    lemma_push(t, w, slot(t, key));
    lemma_leaf_at(img, lay, t, h, q);
    lemma_place(entries(t), before(t, q).len() as int);
    lemma_holds_sub(img, lay, t, q, h, true);
}

/// The mark of a key is that of a leaf.
pub(crate) proof fn lemma_leaf_mark(img: Seq<u8>, lay: Layout, root: int, t: Tree, key: Seq<u8>)
    requires
        good(img, lay, root, t),
        is_key(entries(t), key),
    ensures
        is_index(t, marks(entries(t))[key].page),
        plays(t, marks(entries(t))[key].page, Role::Leaf),
{
    lemma_found(img, lay, root, t, key);
    let q = way(t, key).push(slot(t, key));
    let l = part(t, q);
    lemma_page_root(l);
    lemma_has_sub(t, q, l.pg(), Role::Leaf);
}

/// The leaves of a tree whose hashes are all right.
pub(crate) proof fn lemma_intact(db: Rmdb, key: Seq<u8>)
    requires
        db.readable(),
        is_key(entries(db.tree@), key),
    ensures
        db.intact(key),
{
    let t = db.tree@;
    lemma_found(db.img(), db.layout, db.rootpage as int, t, key);
    lemma_leaf_mark(db.img(), db.layout, db.rootpage as int, t, key);
}

/// Whether `r` is what a search for the key comes to where the map is all there is.
pub open spec fn answers(
    m: Map<Seq<u8>, Seq<u8>>,
    key: Seq<u8>,
    r: Result<Vec<&[u8]>, RmdbError>,
) -> bool {
    match r {
        Ok(v) => m.dom().contains(key) && v.len() == 1 && v[0]@ == m[key],
        Err(e) => !m.dom().contains(key) && e is KeyNotFound,
    }
}

/// Whether `r` is what a search for the key comes to where the map is all there is, and the
/// hashes of the key's leaf and of its value are right only if it is `intact`.
pub open spec fn finds(
    m: Map<Seq<u8>, Seq<u8>>,
    intact: bool,
    key: Seq<u8>,
    r: Result<Vec<&[u8]>, RmdbError>,
) -> bool {
    match r {
        Ok(v) => m.dom().contains(key) && intact && v.len() == 1 && v[0]@ == m[key],
        Err(e) => if m.dom().contains(key) {
            !intact && e is IntegrityCheck
        } else {
            e is KeyNotFound
        },
    }
}

/// Whether `r` is what a search for the key comes to, whatever the image holds: where a leaf
/// has the key, its page is checked, and then its value is read and checked.
pub open spec fn reads_out(
    img: Seq<u8>,
    lay: Layout,
    root: int,
    key: Seq<u8>,
    r: Result<Vec<&[u8]>, RmdbError>,
) -> bool {
    match search(img, lay, root, key) {
        Hit::At(c) => if !lay.sealed(img, c.last()) {
            r matches Err(e) && e is IntegrityCheck
        } else {
            match value_in(img, lay, c.last()) {
                Some(val) => if sum_in(img, lay, c.last(), val) {
                    r matches Ok(v) && v.len() == 1 && v[0]@ == val
                } else {
                    r matches Err(e) && e is IntegrityCheck
                },
                None => r matches Err(e) && e is InvalidMetadata,
            }
        },
        Hit::Broken => r matches Err(e) && e is InvalidMetadata,
        _ => r matches Err(e) && e is KeyNotFound,
    }
}

/// A transaction that reads.
pub struct RmdbTxn<'a> {
    pub rmdb: &'a Rmdb,
    pub status: RmdbTxnState,
}

impl<'b> RmdbTxn<'b> {
    /// The value of a key, in one piece. The page of the key and the value are checked
    /// against their hashes.
    pub fn get_entry(&self, key: &[u8]) -> (r: Result<Vec<&[u8]>, RmdbError>)
        requires
            self.rmdb.layout.sane(),
        ensures
            self.rmdb.sound() ==> finds(self.rmdb@, self.rmdb.intact(key@), key@, r),
            self.rmdb.readable() ==> answers(self.rmdb@, key@, r),
            reads_out(self.rmdb.img(), self.rmdb.layout, self.rmdb.rootpage as int, key@, r),
    {
        let ghost db = *self.rmdb;
        let ghost t = self.rmdb.tree@;
        let ghost img = self.rmdb.img();
        let ghost i = place(entries(t), key@);
        let ghost l = leaf_at(t, i);
        proof {
            if db.sound() && is_key(entries(t), key@) {
                lemma_found(img, db.layout, db.rootpage as int, t, key@);
                if db.readable() {
                    lemma_intact(db, key@);
                }
            }
        }
        let fetch = RmdbFetch::new(
            self.rmdb.layout,
            self.rmdb.wr.mmap.as_slice(),
            self.rmdb.rootpage,
        );
        let leaf: u32 = match fetch.get_leaf(key, Ghost(t)) {
            Ok(leaf) => leaf,
            Err(e) => {
                return Err(e);
            },
        };
        match self.rmdb.layout.integrity_check(self.rmdb.wr.mmap.as_slice(), leaf) {
            Ok(_) => {},
            Err(e) => {
                return Err(e);
            },
        }
        fetch.get_data(leaf, key, true, Ghost(l))
    }

    /// A cursor before the first key.
    pub fn get_cursor<'a>(&'a self) -> (r: Result<RmdbCursor<'a>, RmdbError>)
        ensures
            r matches Ok(c) && c.txn == self && c.cursor.len() == 0,
    {
        Ok(RmdbCursor { txn: self, cursor: Vec::new() })
    }

    /// Closes the transaction.
    pub fn scrub(&mut self) -> (r: Result<(), RmdbError>)
        ensures
            final(self).rmdb == old(self).rmdb,
            match r {
                Ok(_) => old(self).status == RmdbTxnState::Open && final(self).status
                    == RmdbTxnState::Scrubbed,
                Err(e) => old(self).status != RmdbTxnState::Open && final(self).status
                    == old(self).status && e is InvalidTransaction,
            },
    {
        match self.status {
            RmdbTxnState::Open => {
                self.status = RmdbTxnState::Scrubbed;
                Ok(())
            },
            _ => Err(RmdbError::InvalidTransaction),
        }
    }
}

/// A place in the order of keys.
pub struct RmdbCursor<'a> {
    pub txn: &'a RmdbTxn<'a>,
    /// The pages from the root to the leaf of the current key; none before the first.
    pub cursor: Vec<u32>,
}

impl<'a> RmdbCursor<'a> {
    /// The database that is read.
    pub open spec fn db(self) -> Rmdb {
        *self.txn.rmdb
    }

    /// The entries of the database, by their keys.
    pub open spec fn es(self) -> Seq<Entry> {
        entries(self.db().tree@)
    }

    /// Whether the cursor is before the first key.
    pub open spec fn fresh(self) -> bool {
        self.cursor.len() == 0
    }

    /// Whether the cursor is at the `i`-th key.
    pub open spec fn at(self, i: int) -> bool {
        stands_at(self.db().tree@, nums(self.cursor@), i)
    }

    /// What reading the `i`-th entry comes to.
    pub open spec fn reads(self, i: int, r: Result<(&[u8], Vec<&[u8]>), RmdbError>) -> bool {
        match r {
            Ok((key, val)) => {
                &&& key@ == self.es()[i].0
                &&& val.len() == 1
                &&& val[0]@ == self.es()[i].1
                &&& self.es()[i].2.right
            },
            Err(e) => e is IntegrityCheck && !self.es()[i].2.right,
        }
    }

    /// What reading page `p` as a leaf comes to.
    pub open spec fn reads_page(self, p: int, r: Result<(&[u8], Vec<&[u8]>), RmdbError>) -> bool {
        let img = self.db().img();
        let lay = self.db().layout;
        match (key_in(img, lay, p), value_in(img, lay, p)) {
            (Some(k), Some(v)) => if sum_in(img, lay, p, v) {
                r matches Ok((key, val)) && key@ == k && val.len() == 1 && val[0]@ == v
            } else {
                r matches Err(e) && e is IntegrityCheck
            },
            (None, _) if in_img(img, lay.ps(), p) && page_type(img, lay, p) as u16 & PAGE_LEAF
                != PAGE_LEAF => r matches Err(e) && e is PageNotLeaf,
            _ => r matches Err(e) && e is InvalidMetadata,
        }
    }

    /// The pages from the root on when one always goes into the first child, if they end
    /// in a leaf.
    pub open spec fn first_chain(self) -> Option<Seq<int>> {
        match leftmost(
            self.db().img(),
            self.db().layout,
            self.db().rootpage as int,
            self.db().img().len() as nat / self.db().layout.ps() as nat,
        ) {
            Some(c) => if c.len() >= 2 {
                Some(c)
            } else {
                None
            },
            None => None,
        }
    }

    /// What a step of a cursor before the first key comes to, whether there are keys or
    /// not.
    pub open spec fn starts(self, s: RmdbCursor<'a>, r: Result<(&[u8], Vec<&[u8]>), RmdbError>) -> bool {
        if s.db().rootpage == 0 {
            self.fresh() && (r matches Err(e) && e is KeyNotFound)
        } else {
            match s.first_chain() {
                Some(c) => nums(self.cursor@) == c && self.reads_page(c.last(), r),
                None => self.fresh() && (r matches Err(e) && e is InvalidMetadata),
            }
        }
    }

    /// What a step of a cursor that has a page comes to, whatever the image holds.
    pub open spec fn moves(self, s: RmdbCursor<'a>, r: Result<(&[u8], Vec<&[u8]>), RmdbError>) -> bool {
        match chain_after(s.db().img(), s.db().layout, nums(s.cursor@)) {
            Next::Chain(c) => nums(self.cursor@) == c && self.reads_page(c.last(), r),
            Next::End => self.cursor == s.cursor && (r matches Err(e) && e is KeyNotFound),
            Next::Broken => self.cursor == s.cursor && (r matches Err(e) && e is InvalidMetadata),
        }
    }

    /// What a step of the cursor comes to: the first key where the cursor was before it,
    /// else the next one, until there is none.
    pub open spec fn stepped(self, s: RmdbCursor<'a>, r: Result<(&[u8], Vec<&[u8]>), RmdbError>) -> bool {
        &&& self.txn == s.txn
        &&& s.db().sound() ==> {
            &&& s.fresh() && s.es().len() > 0 ==> self.at(0) && self.reads(0, r)
            &&& forall|i: int| #[trigger]
                s.at(i) && i + 1 < s.es().len() ==> self.at(i + 1) && self.reads(i + 1, r)
            &&& forall|i: int| #[trigger]
                s.at(i) && i + 1 == s.es().len() ==> self.cursor == s.cursor && (r matches Err(e)
                    && e is KeyNotFound)
        }
        &&& s.fresh() ==> self.starts(s, r)
        &&& !s.fresh() ==> self.moves(s, r)
    }

    /// What reading the current entry comes to. The cursor stays where it is; one that is
    /// before the first key goes to it.
    pub open spec fn shown(self, s: RmdbCursor<'a>, r: Result<(&[u8], Vec<&[u8]>), RmdbError>) -> bool {
        &&& self.txn == s.txn
        &&& s.db().sound() ==> {
            &&& forall|i: int| #[trigger] s.at(i) ==> self.reads(i, r)
            &&& s.fresh() && s.es().len() > 0 ==> self.at(0) && self.reads(0, r)
        }
        &&& s.fresh() ==> self.starts(s, r)
        &&& !s.fresh() ==> self.cursor == s.cursor && self.reads_page(s.cursor@.last() as int, r)
    }

    /// The current key with its value. A cursor that is before the first key goes to it.
    pub fn get_current(&mut self) -> (r: Result<(&'a [u8], Vec<&'a [u8]>), RmdbError>)
        requires
            old(self).db().layout.sane(),
        ensures
            final(self).shown(*old(self), r),
    {
        let ghost db = self.db();
        let ghost t = self.db().tree@;
        let fetch: RmdbFetch<'a> = RmdbFetch::new(
            self.txn.rmdb.layout,
            self.txn.rmdb.wr.mmap.as_slice(),
            self.txn.rmdb.rootpage,
        );
        if self.cursor.len() == 0 {
            match fetch.get_first_element() {
                Ok(chain) => {
                    self.cursor = chain;
                },
                Err(e) => {
                    proof {
                        lemma_fresh_at(db, nums(self.cursor@));
                        if db.sound() && entries(t).len() > 0 {
                            lemma_first(db);
                        }
                    }
                    return Err(e);
                },
            }
            proof {
                lemma_fresh_at(db, nums(old(self).cursor@));
                if db.sound() && entries(t).len() > 0 {
                    lemma_first(db);
                }
            }
        }
        let leafnum: u32 = self.cursor[self.cursor.len() - 1];
        let ghost chain = nums(self.cursor@);
        let ghost i = choose|i: int| #[trigger] stands_at(t, chain, i);
        let ghost l = leaf_at(t, i);
        proof {
            if db.sound() {
                assert forall|j: int| #[trigger] stands_at(t, chain, j) implies j == i && l.pg()
                    == leafnum && l is Leaf && holds(db.img(), db.layout, l, 0, false)
                    && entries(t)[j] == l.entry() by {
                    lemma_chain_end(db, chain, j);
                    lemma_chain_end(db, chain, i);
                    lemma_chain_once(db, chain, i, j);
                    assert(chain.last() == leafnum);
                }
            }
        }
        let key: &'a [u8] = match fetch.get_leaf_key(leafnum, Ghost(l), Ghost(0int)) {
            Ok(key) => key,
            Err(e) => {
                return Err(e);
            },
        };
        let val: Vec<&'a [u8]> = match fetch.get_data(leafnum, key, true, Ghost(l)) {
            Ok(val) => val,
            Err(e) => {
                return Err(e);
            },
        };
        Ok((key, val))
    }

    /// Goes to the next key, or to the first, and reads it.
    pub fn get_next(&mut self) -> (r: Result<(&'a [u8], Vec<&'a [u8]>), RmdbError>)
        requires
            old(self).db().layout.sane(),
        ensures
            final(self).stepped(*old(self), r),
    {
        let ghost db = self.db();
        let ghost t = self.db().tree@;
        let ghost chain = nums(self.cursor@);
        let fetch: RmdbFetch<'a> = RmdbFetch::new(
            self.txn.rmdb.layout,
            self.txn.rmdb.wr.mmap.as_slice(),
            self.txn.rmdb.rootpage,
        );
        if self.cursor.len() == 0 {
            proof {
                lemma_fresh_at(db, chain);
                if db.sound() && entries(t).len() > 0 {
                    lemma_first(db);
                }
            }
            match fetch.get_first_element() {
                Ok(chain) => {
                    self.cursor = chain;
                },
                Err(e) => {
                    return Err(e);
                },
            }
        } else {
            let ghost i = choose|i: int| #[trigger] stands_at(t, chain, i);
            proof {
                if db.sound() {
                    assert forall|j: int| #[trigger] stands_at(t, chain, j) implies j == i && j
                        < entries(t).len() by {
                        lemma_chain_end(db, chain, j);
                        lemma_chain_once(db, chain, i, j);
                    }
                }
            }
            match fetch.get_next_element(&self.cursor, Ghost(t), Ghost(i)) {
                Ok(next) => {
                    self.cursor = next;
                },
                Err(e) => {
                    return Err(e);
                },
            }
        }
        let ghost mid = *self;
        proof {
            assert(nums(mid.cursor@).len() == mid.cursor.len());
            if !old(self).fresh() {
                lemma_next_pages(db.img(), db.layout, chain.drop_last(), chain.last());
                assert(nums(mid.cursor@).last() == mid.cursor@.last());
            }
            lemma_fresh_at(db, nums(mid.cursor@));
            if db.sound() {
                if old(self).fresh() {
                    if entries(t).len() > 0 {
                        assert(mid.at(0));
                    }
                } else {
                    let i = choose|i: int| #[trigger] stands_at(t, chain, i);
                    assert forall|j: int| #[trigger] old(self).at(j) implies mid.at(j + 1) && j + 1
                        < entries(t).len() by {
                        assert(stands_at(t, chain, j));
                    }
                }
            }
        }
        self.get_current()
    }

    /// What going to a key comes to.
    pub open spec fn placed(self, s: RmdbCursor<'a>, key: Seq<u8>, r: Result<(), RmdbError>) -> bool {
        &&& self.txn == s.txn
        &&& r is Err ==> self.cursor == s.cursor
        &&& s.db().sound() ==> match r {
            Ok(_) => s.db()@.dom().contains(key) && self.at(
                place(s.es(), key),
            ),
            Err(e) => {
                &&& !s.db()@.dom().contains(key)
                &&& if too_small(s.es(), key) {
                    e is KeyTooSmall
                } else if too_big(s.es(), key) {
                    e is KeyTooBig
                } else {
                    e is KeyNotFound
                }
            },
        }
        &&& match search(
            s.db().img(),
            s.db().layout,
            s.db().rootpage as int,
            key,
        ) {
            Hit::At(c) => r is Ok && nums(self.cursor@) == c && c.len() > 0 && key_in(
                s.db().img(),
                s.db().layout,
                c.last(),
            ) == Some(key),
            Hit::Small => r matches Err(e) && e is KeyTooSmall,
            Hit::Big => r matches Err(e) && e is KeyTooBig,
            Hit::Missing => r matches Err(e) && e is KeyNotFound,
            Hit::Broken => r matches Err(e) && e is InvalidMetadata,
        }
    }

    /// Goes to a key. Where there is no such key, the cursor stays where it is.
    pub fn set_to(&mut self, key: &[u8]) -> (r: Result<(), RmdbError>)
        requires
            old(self).db().layout.sane(),
        ensures
            final(self).placed(*old(self), key@, r),
    {
        let ghost db = self.db();
        let ghost t = self.db().tree@;
        let fetch: RmdbFetch<'a> = RmdbFetch::new(
            self.txn.rmdb.layout,
            self.txn.rmdb.wr.mmap.as_slice(),
            self.txn.rmdb.rootpage,
        );
        let fuel: usize = self.txn.rmdb.wr.mmap.len() / self.txn.rmdb.layout.pagesize;
        let mut chain: Vec<u32> = Vec::new();
        proof {
            lemma_node_hit(db.img(), db.layout, db.rootpage as int, 0, key@, fuel as nat);
            if db.sound() {
                lemma_depth(db.img(), db.layout, t, height(t), true);
            }
        }
        let leaf: u32 = match fetch.get_parents_leaf(
            0,
            key,
            &mut chain,
            fuel,
            Ghost(t),
            Ghost(height(t)),
            Ghost(true),
        ) {
            Ok(leaf) => leaf,
            Err(e) => {
                return Err(e);
            },
        };
        proof {
            assert(nums(Seq::<u32>::empty()) + passed(t, key@) =~= passed(t, key@));
        }
        let ghost up = chain@;
        chain.push(leaf);
        self.cursor = chain;
        proof {
            assert(nums(chain@) =~= nums(up).push(leaf as int));
            assert(forall|c: Seq<int>| #[trigger] (nums(Seq::<u32>::empty()) + c) =~= c);
            if db.sound() {
                lemma_found(db.img(), db.layout, db.rootpage as int, t, key@);
                let q = way(t, key@).push(slot(t, key@));
                assert(leads_to(t, q, nums(chain@), place(entries(t), key@)));
            }
        }
        Ok(())
    }
}

/// A cursor before the first key is at none.
proof fn lemma_fresh_at(db: Rmdb, chain: Seq<int>)
    ensures
        chain.len() == 0 ==> forall|i: int| !#[trigger] stands_at(db.tree@, chain, i),
{
    let t = db.tree@;
    if chain.len() == 0 {
        assert forall|i: int| !#[trigger] stands_at(t, chain, i) by {
            if stands_at(t, chain, i) {
                let q = choose|q: Seq<int>| #[trigger] leads_to(t, q, chain, i);
                lemma_trail_len(t, q);
            }
        }
    }
}

/// Where the pages of a chain lead.
pub(crate) proof fn lemma_chain_end(db: Rmdb, chain: Seq<int>, i: int)
    requires
        db.sound(),
        stands_at(db.tree@, chain, i),
    ensures
        ({
            let l = leaf_at(db.tree@, i);
            &&& l is Leaf
            &&& chain.len() > 0
            &&& l.pg() == chain.last()
            &&& 0 <= i < entries(db.tree@).len()
            &&& entries(db.tree@)[i] == l.entry()
            &&& holds(db.img(), db.layout, l, 0, false)
        }),
{
    let t = db.tree@;
    let q = choose|q: Seq<int>| #[trigger] leads_to(t, q, chain, i);
    lemma_leaf_at(db.img(), db.layout, t, height(t), q);
    lemma_trail_last(t, q);
    lemma_holds_sub(db.img(), db.layout, t, q, height(t), true);
}

/// A chain of pages leads to one leaf.
pub(crate) proof fn lemma_chain_once(db: Rmdb, chain: Seq<int>, i: int, j: int)
    requires
        db.sound(),
        stands_at(db.tree@, chain, i),
        stands_at(db.tree@, chain, j),
    ensures
        i == j,
{
    let t = db.tree@;
    let q = choose|q: Seq<int>| #[trigger] leads_to(t, q, chain, i);
    let r = choose|r: Seq<int>| #[trigger] leads_to(t, r, chain, j);
    lemma_same_trail(t, q, r);
}

/// Two ways past the same pages are the same.
proof fn lemma_same_trail(t: Tree, q: Seq<int>, r: Seq<int>)
    requires
        crate::tree::distinct(t),
        leads(t, q),
        leads(t, r),
        trail(t, q) == trail(t, r),
    ensures
        q == r,
    decreases q.len(),
{
    lemma_trail_len(t, q);
    lemma_trail_len(t, r);
    if q.len() == 0 {
        assert(q =~= r);
    } else {
        let (a, b) = (q[0], r[0]);
        let (q1, r1) = (q.drop_first(), r.drop_first());
        let kids = t.kids();
        lemma_trail_len(kids[a], q1);
        lemma_trail_len(kids[b], r1);
        assert(trail(t, q)[1] == trail(kids[a], q1)[0]);
        assert(trail(t, r)[1] == trail(kids[b], r1)[0]);
        if a != b {
            crate::path::lemma_kid_pages(t, a, b);
        }
        assert(trail(kids[a], q1) =~= trail(t, q).skip(1));
        assert(trail(kids[b], r1) =~= trail(t, r).skip(1));
        lemma_same_trail(kids[a], q1, r1);
        assert(q =~= seq![a] + q1);
        assert(r =~= seq![b] + r1);
    }
}

/// Going into the first child leads to the first leaf.
pub(crate) proof fn lemma_leftmost(img: Seq<u8>, lay: Layout, t: Tree, h: int, top: bool, fuel: nat) -> (q: Seq<
    int,
>)
    requires
        lay.sane(),
        holds(img, lay, t, h, top),
        t is Leaf || t.kids().len() > 0,
        h <= fuel,
    ensures
        leads_to(t, q, trail(t, q), 0),
        leftmost(img, lay, t.pg(), fuel) == Some(trail(t, q)),
    decreases t,
{
    lemma_types();
    match t {
        Tree::Leaf { page, .. } => {
            let q = Seq::<int>::empty();
            assert(trail(t, q) =~= seq![page]);
            q
        },
        Tree::Node { page: p, kids } => {
            let pg = page(img, lay.ps(), p);
            let k = kids[0];
            assert(holds(img, lay, k, h - 1, false));
            assert(u32_at(pg, topptr(0)) == k.pg());
            let q1 = lemma_leftmost(img, lay, k, h - 1, false, (fuel - 1) as nat);
            let q = seq![0int] + q1;
            assert(q.drop_first() =~= q1);
            assert(q[0] == 0);
            assert(kids.take(0) =~= Seq::empty());
            assert(before(t, q).len() == 0);
            q
        },
    }
}

/// The first leaf of a database that has one.
proof fn lemma_first(db: Rmdb)
    requires
        db.sound(),
        entries(db.tree@).len() > 0,
    ensures
        db.rootpage != 0,
        ({
            let c = leftmost(
                db.img(),
                db.layout,
                db.rootpage as int,
                db.img().len() as nat / db.layout.ps() as nat,
            );
            c is Some && c->0.len() >= 2 && stands_at(db.tree@, c->0, 0)
        }),
{
    let t = db.tree@;
    let fuel = db.img().len() as nat / db.layout.ps() as nat;
    lemma_depth(db.img(), db.layout, t, height(t), true);
    let q = lemma_leftmost(db.img(), db.layout, t, height(t), true, fuel);
    lemma_trail_len(t, q);
    assert(leads_to(t, q, trail(t, q), 0));
    if q.len() == 0 {
        assert(part(t, q) == t);
    }
}

} // verus!
