//! The database: making one, opening one, and starting transactions on it.
use crate::blocks::{in_free, lemma_total_bound, RmdbFreePages};
use crate::bytes::{
    get_u16, get_u32, in_img, lemma_le16, lemma_le32, lemma_page_len, lemma_page_zero, page,
    page_in, same_page, set_bytes, set_u16, set_u32, size_to_pages, u16_at, u32_at, word_at,
};
use crate::commit::{lemma_saved_new, set_main};
use crate::contents::{contents, lemma_contents_empty, lemma_place, marks};
use crate::error::RmdbError;
use crate::fetch::lemma_types;
use crate::flags::{RmdbFlags, ALL_FLAGS};
use crate::freemap::{
    first_pages, fresh_lists, is_map, lemma_block_left, map_bytes, map_page, map_pages, map_sealed,
    map_there, room_for_map, root_of, spelled,
};
use crate::layout::{
    Layout, NODE_NUMPTRS, PAGE_NODE, PAGE_ROOT, POS_PAGETYPE, RMDB_FILEVER, RMDB_P_DBPAGES,
    RMDB_P_FLAGS, RMDB_P_PAGESIZE, RMDB_P_ROOT, RMDB_P_SIG, RMDB_P_VER,
};
use crate::options::{payload_of, payload_size, RmdbOptions, RMDB_INTGSIZE, RMDB_PAGESIZE};
use crate::path::good;
use crate::saved::{header, in_map, is_index, kept, page_type, saved, total_pages, Base};
use crate::store::{less_pages, source, RmdbWr};
use crate::tree::{
    bushy, entries, has_page, height, holds, lemma_page_root, lemma_same_entries, Mark, Tree,
};
use crate::txn::{lemma_leaf_mark, RmdbTxn};
use crate::wtxn::RmdbWTxn;
use crate::entry::lemma_takes_all;
use vstd::prelude::*;

verus! {

/// Version of the library.
pub const RMDB_MAJOR: u16 = 0;

pub const RMDB_MINOR: u16 = 0;

pub const RMDB_RELEASE: u16 = 0;

pub const RMDB_RESERVED: u16 = 0;

/// A database in memory: the image of its file, and what of it readers see.
pub struct Rmdb {
    pub layout: Layout,
    /// The root page that readers start from.
    pub rootpage: u32,
    pub wr: RmdbWr,
    /// The tree below the root page.
    pub tree: Ghost<Tree>,
}

/// What became of a transaction.
#[derive(Clone, Copy, Debug, PartialEq, Eq, Structural)]
pub enum RmdbTxnState {
    Open,
    Committed,
    Scrubbed,
}

/// The options that count: those given, or the default ones.
pub open spec fn chosen(options: Option<RmdbOptions>) -> RmdbOptions {
    match options {
        Some(o) => o,
        None => RmdbOptions {
            init_size: (RMDB_PAGESIZE * 64) as usize,
            pagesize: RMDB_PAGESIZE,
            flags: RmdbFlags { bits: 33 },
            readonly: false,
        },
    }
}

/// Whether a database is as it was made with `np` pages: a root without children in the
/// first page that is given out, and as many pages as it came to have, by page 0 too.
pub open spec fn made(db: Rmdb, np: int) -> bool {
    &&& db.rootpage == source(fresh_lists(np), 0)
    &&& db.tree@ == Tree::Node { page: db.rootpage as int, kids: Seq::empty() }
    &&& db.np() == first_pages(db.layout, np)
    &&& total_pages(db.img(), db.layout) == db.np()
    &&& db.img().len() == (if db.np() == np {
        np * db.layout.ps()
    } else {
        (db.np() + 1) * db.layout.ps()
    })
}

/// What making a database comes to.
pub open spec fn created(options: Option<RmdbOptions>, r: Result<Rmdb, RmdbError>) -> bool {
    r matches Ok(db) && {
        &&& db.wf()
        &&& db@ == Map::<Seq<u8>, Seq<u8>>::empty()
        &&& db.layout == chosen(options).layout()
        &&& made(db, chosen(options).pages())
        &&& starts_roomy(chosen(options)) ==> db.np() == chosen(options).pages()
    }
}

/// Whether page 0, a root and a map of free pages in one page find room in what a database
/// has at first.
pub open spec fn starts_roomy(o: RmdbOptions) -> bool {
    o.pagesize >= 1024 && o.pages() >= 3
}

/// Whether there is room for the map of all pages that the database may come to have
/// when the map is written.
pub(crate) fn room_for_map_at(np: usize, ps: usize) -> (r: bool)
    requires
        ps >= 1,
    ensures
        r == room_for_map(np as int, ps as int),
{
    if np > 0x1fff_5fff {
        return false;
    }
    let most: usize = usize::MAX / ps;
    proof {
        let (a, m, k) = (2 * np + 101, most as int, ps as int);
        assert((a <= m) == (a * k <= usize::MAX)) by (nonlinear_arith)
            requires
                m == usize::MAX as int / k,
                k >= 1,
                a >= 0,
        ;
    }
    2 * np + 101 <= most
}

/// How page 0 of an image says that pages are laid out.
pub open spec fn layout_of(img: Seq<u8>) -> Layout {
    let flags = RmdbFlags { bits: u32_at(img, RMDB_P_FLAGS as int) as u32 };
    let pagesize = u32_at(img, RMDB_P_PAGESIZE as int) as usize;
    Layout { pagesize, payload: payload_of(pagesize as int, flags) as usize, flags }
}

/// Whether an image holds a database with the tree and the free pages.
pub open spec fn database(img: Seq<u8>, t: Tree, b: Base) -> bool {
    let lay = layout_of(img);
    &&& lay.ok()
    &&& img.len() as int % lay.ps() == 0
    &&& total_pages(img, lay) <= img.len() as int / lay.ps()
    &&& saved(img, lay, root_of(img, lay), t, b)
}

/// The tree of an image: that of the database, or whatever can be read below the root.
pub open spec fn tree_of(img: Seq<u8>) -> Tree {
    let lay = layout_of(img);
    if exists|t: Tree, b: Base| #[trigger] database(img, t, b) {
        let (t, b) = choose|t: Tree, b: Base| #[trigger] database(img, t, b);
        t
    } else {
        choose|t: Tree| #[trigger] good(img, lay, root_of(img, lay), t)
    }
}

/// What keeps an image from being opened.
pub enum Fault {
    /// It is no database, or what it says of itself cannot be.
    Contents,
    /// A signature, a version, a hash or the type of the root is wrong.
    Check,
    /// It has not as many bytes as it has to.
    Size,
}

/// Whether an image begins with the signature of the format.
pub open spec fn named(img: Seq<u8>) -> bool {
    img[0] == 0x52 && img[1] == 0x4d && img[2] == 0x44 && img[3] == 0x42
}

/// Whether an image begins with the signature and the version of the format.
pub open spec fn signed(img: Seq<u8>) -> bool {
    &&& named(img)
    &&& u32_at(img, RMDB_P_VER as int) == RMDB_FILEVER
}

/// The first thing in page 0 or in the root that keeps an image from being opened. What
/// page 0 says is looked at in the order in which it stands there, as far as the image
/// goes.
pub open spec fn main_fault(img: Seq<u8>) -> Option<Fault> {
    let lay = layout_of(img);
    let root = u32_at(img, RMDB_P_ROOT as int);
    if img.len() < 4 {
        Some(Fault::Contents)
    } else if !named(img) {
        Some(Fault::Check)
    } else if img.len() < 8 {
        Some(Fault::Contents)
    } else if !signed(img) {
        Some(Fault::Check)
    } else if img.len() < 20 || lay.flags.bits & !ALL_FLAGS != 0 || lay.ps() == 0 || payload_of(
        lay.ps(),
        lay.flags,
    ) < 0 {
        Some(Fault::Contents)
    } else if img.len() as int % lay.ps() != 0 || img.len() as int / lay.ps() < u32_at(
        img,
        RMDB_P_DBPAGES as int,
    ) {
        Some(Fault::Size)
    } else if img.len() < 24 {
        Some(Fault::Contents)
    } else if root == 0 || !lay.sealed(img, 0) {
        Some(Fault::Check)
    } else if !in_img(img, lay.ps(), root) {
        Some(Fault::Contents)
    } else if !lay.sealed(img, root) {
        Some(Fault::Check)
    } else if lay.payload < 2 {
        Some(Fault::Contents)
    } else if page_type(img, lay, root) as u16 & PAGE_ROOT == 0 {
        Some(Fault::Check)
    } else if lay.payload < 32 {
        Some(Fault::Contents)
    } else {
        None
    }
}

/// The first thing that keeps an image from being opened: in page 0, in the root, or in
/// the map of free pages.
pub open spec fn fault(img: Seq<u8>) -> Option<Fault> {
    let lay = layout_of(img);
    let fp = map_page(img, lay);
    let fs = map_pages(img, lay);
    if main_fault(img) is Some {
        main_fault(img)
    } else if !map_there(img, lay, fp, fs) {
        Some(Fault::Contents)
    } else if !map_sealed(img, lay, fp, fs) {
        Some(Fault::Check)
    } else if !is_map(map_bytes(img, lay, fp)) {
        Some(Fault::Contents)
    } else {
        None
    }
}

/// Whether the error tells of the fault.
pub open spec fn tells(e: RmdbError, f: Fault) -> bool {
    match f {
        Fault::Contents => e is InvalidDBFile,
        Fault::Check => e is IntegrityCheck,
        Fault::Size => e is InvalidFileSize,
    }
}

/// What taking up an image comes to.
pub open spec fn opened(img: Seq<u8>, r: Result<Rmdb, RmdbError>) -> bool {
    &&& match r {
        Ok(db) => {
            &&& fault(img) is None
            &&& db.img() == img
            &&& db.layout == layout_of(img)
            &&& db.layout.sane()
            &&& db.rootpage == root_of(img, db.layout)
            &&& db.np() == total_pages(img, db.layout)
            &&& spelled(
                map_bytes(img, db.layout, map_page(img, db.layout)),
                db.wr.ls(),
            )
            &&& forall|t: Tree| #[trigger]
                good(img, db.layout, db.rootpage as int, t) ==> db.sound()
                    && entries(db.tree@) == entries(t)
        },
        Err(e) => fault(img) matches Some(f) && tells(e, f),
    }
    &&& forall|t: Tree, b: Base| #[trigger]
        database(img, t, b) ==> (r matches Ok(db) && db.wf() && entries(db.tree@)
            == entries(t) && db@ == contents(entries(t)))
}

impl Rmdb {
    /// The bytes of the file.
    pub open spec fn img(self) -> Seq<u8> {
        self.wr.mmap@
    }

    /// How many pages there are.
    pub open spec fn np(self) -> int {
        self.wr.num_pages as int
    }

    /// The lists of free pages, and where page 0 says their map is.
    pub open spec fn base(self) -> Base {
        Base {
            ls: self.wr.ls(),
            fp: map_page(self.img(), self.layout),
            fs: map_pages(self.img(), self.layout),
        }
    }

    /// Everything is saved, and the free pages are those of the map.
    pub open spec fn wf(self) -> bool {
        &&& self.layout.ok()
        &&& self.wr.ok(self.layout.ps())
        &&& total_pages(self.img(), self.layout) <= self.np()
        &&& saved(
            self.img(),
            self.layout,
            self.rootpage as int,
            self.tree@,
            self.base(),
        )
    }

    /// There is a tree below the root page, whatever its hashes are.
    pub open spec fn sound(self) -> bool {
        &&& self.layout.sane()
        &&& good(self.img(), self.layout, self.rootpage as int, self.tree@)
    }

    /// There is a tree below the root page, and all its hashes are right.
    pub open spec fn readable(self) -> bool {
        &&& self.sound()
        &&& forall|p: int| #[trigger]
            is_index(self.tree@, p) ==> self.layout.sealed(self.img(), p)
        &&& forall|i: int|
            0 <= i < entries(self.tree@).len() ==> (#[trigger] entries(self.tree@)[i]).2.right
    }

    /// The marks of the leaves of all keys.
    pub open spec fn marks(self) -> Map<Seq<u8>, Mark> {
        marks(entries(self.tree@))
    }

    /// Whether the page of the key's leaf and the key's value have the right hashes, where
    /// they have any.
    pub open spec fn intact(self, key: Seq<u8>) -> bool {
        let m = self.marks()[key];
        self.layout.sealed(self.img(), m.page) && m.right
    }

    /// Makes an empty database.
    pub fn create(options: Option<RmdbOptions>) -> (r: Result<Rmdb, RmdbError>)
        requires
            options matches Some(o) ==> o.usable(),
        ensures
            created(options, r),
            r matches Ok(db) && db@ == Map::<Seq<u8>, Seq<u8>>::empty(),
    {
        let opt: RmdbOptions = match options {
            Some(o) => o,
            None => RmdbOptions::new(),
        };
        assert(opt == chosen(options));
        let layout: Layout = Layout {
            pagesize: opt.pagesize,
            payload: payload_size(opt.pagesize, opt.flags),
            flags: opt.flags,
        };
        proof {
            let (n, k, m) = (opt.init_size as int, opt.pagesize as int, opt.pages());
            assert(n <= m * k && n + k <= (2 * (m + 9) + 101) * k && m * k <= (2 * (m + 9) + 101) * k)
                by (nonlinear_arith)
                requires
                    m == (n + k - 1) / k,
                    k >= 1,
                    n >= 0,
            ;
        }
        let num_pages: u32 = size_to_pages(opt.pagesize, opt.init_size);
        let mut mmap: Vec<u8> = Vec::new();
        mmap.resize(num_pages as usize * opt.pagesize, 0);
        let mut rmdb = Rmdb {
            layout,
            rootpage: 0,
            wr: RmdbWr {
                num_pages,
                mmap,
                freepages: RmdbFreePages { lists: Vec::new(), free: 0 },
            },
            tree: Ghost(arbitrary()),
        };
        rmdb.initialize()?;
        Ok(rmdb)
    }

    /// Writes an empty root, the map of free pages, and page 0.
    fn initialize(&mut self) -> (r: Result<(), RmdbError>)
        requires
            old(self).layout.ok(),
            old(self).layout.flags.bits & !ALL_FLAGS == 0,
            old(self).wr.num_pages >= 2,
            old(self).img().len() == old(self).wr.num_pages * old(self).layout.ps(),
            room_for_map(old(self).wr.num_pages + 9, old(self).layout.ps()),
        ensures
            r is Ok,
            final(self).wf(),
            final(self)@ == Map::<Seq<u8>, Seq<u8>>::empty(),
            final(self).layout == old(self).layout,
            made(*final(self), old(self).np()),
            old(self).layout.pagesize >= 1024 && old(self).wr.num_pages >= 3
                ==> final(self).np() == old(self).np(),
    {
        let lay: Layout = self.layout;
        let ps: usize = lay.pagesize;
        let num_pages: u32 = self.wr.num_pages;
        self.wr.init_free_pages_map();
        let ghost w0 = self.wr;
        proof {
            let (n, k) = (num_pages as int, ps as int);
            assert((n + 10) * k <= (2 * (n + 9) + 101) * k && (n * k) % k == 0 && (n * k) / k == n)
                by (nonlinear_arith)
                requires
                    n >= 0,
                    k >= 1,
            ;
        }
        let alloc: Vec<u32> = self.wr.get_free_pages(ps, 1, true)?;
        let root: u32 = alloc[0];
        let ghost w1 = self.wr;
        self.rootpage = root;
        proof {
            assert(in_free(w0.ls(), alloc@[0] as int) || w0.num_pages <= alloc@[0]
                < w1.num_pages);
            assert(crate::blocks::among(alloc@, root as int));
            assert(!in_free(w1.ls(), root as int));
            w1.lemma_pages_in(lay.ps(), root as int);
            lemma_block_left(w0.ls());
            assert(w1.num_pages == w0.num_pages);
            assert(w1.ls() == less_pages(fresh_lists(num_pages as int), 1, 0));
            assert(root == source(fresh_lists(num_pages as int), 0));
            assert(lay.pagesize >= 1024 && num_pages >= 3 ==> w1.small_map(lay));
        }
        init_root(&mut self.wr.mmap, lay, root);
        let ghost w2 = self.wr;
        let ghost t = Tree::Node { page: root as int, kids: Seq::empty() };
        proof {
            let (n, m, k) = (num_pages as int, w2.num_pages as int, ps as int);
            assert((2 * m + 101) * k <= (2 * (n + 9) + 101) * k) by (nonlinear_arith)
                requires
                    m <= n + 9,
                    k >= 0,
            ;
        }
        let (fp, fs) = self.wr.set_free_pages_map(lay, 0, 0);
        let ghost w3 = self.wr;
        proof {
            w3.lemma_pages_in(lay.ps(), 0);
        }
        write_header(&mut self.wr.mmap, lay);
        let ghost img4 = self.wr.mmap@;
        let np: u32 = self.wr.num_pages;
        set_main(&mut self.wr.mmap, lay, np, root, fp, fs);
        proof {
            let w5 = self.wr;
            lemma_header_at(w3.mmap@, img4, w5.mmap@, lay);
            lemma_empty_tree(w2.mmap@, lay, root as int);
            lemma_saved_new(w2, w3, w5, lay, t, 0, 0, root, fp, fs);
            assert(entries(t) =~= Seq::empty());
            lemma_contents_empty();
            let (n, m, k) = (num_pages as int, w5.num_pages as int, ps as int);
            assert(n * k <= m * k && m * k <= (m + 1) * k) by (nonlinear_arith)
                requires
                    n <= m,
                    k >= 0,
            ;
        }
        self.tree = Ghost(t);
        Ok(())
    }

    /// Takes up the image of a database file. The database has the pages that page 0 counts;
    /// the file may have more.
    pub fn open(image: Vec<u8>) -> (r: Result<Rmdb, RmdbError>)
        ensures
            opened(image@, r),
    {
        let ghost img = image@;
        proof {
            assert forall|t: Tree, b: Base| #[trigger] database(img, t, b) implies fault(img) is None by {
                lemma_no_fault(img, t, b);
            }
        }
        let layout: Layout = setup(&image)?;
        let ps: usize = layout.pagesize;
        let rootpage: u32 = get_u32(image.as_slice(), ps, 0, RMDB_P_ROOT);
        let num_pages: u32 = get_u32(image.as_slice(), ps, 0, RMDB_P_DBPAGES);
        let mut rmdb = Rmdb {
            layout,
            rootpage,
            wr: RmdbWr {
                num_pages,
                mmap: image,
                freepages: RmdbFreePages { lists: Vec::new(), free: 0 },
            },
            tree: Ghost(tree_of(img)),
        };
        match rmdb.wr.get_free_pages_map(layout) {
            Ok(_) => {},
            Err(e) => {
                return Err(e);
            },
        }
        proof {
            let fp = map_page(img, layout);
            assert(is_map(map_bytes(img, layout, fp)));
            assert(rmdb.wr.mmap@ == img);
            assert forall|t: Tree| #[trigger]
                good(img, rmdb.layout, rmdb.rootpage as int, t) implies rmdb.sound()
                && entries(rmdb.tree@) == entries(t) by {
                lemma_tree_of(img, t);
            }
            assert forall|t: Tree, b: Base| #[trigger] database(img, t, b) implies rmdb.wf()
                && entries(rmdb.tree@) == entries(t) && rmdb@ == contents(entries(t)) by {
                lemma_opened(rmdb, t, b);
            }
        }
        Ok(rmdb)
    }

    /// The version of the library.
    pub fn version(&self) -> (r: u64)
        ensures
            r == RMDB_MAJOR * 0x1_0000_0000_0000 + RMDB_MINOR * 0x1_0000_0000 + RMDB_RELEASE
                * 0x1_0000 + RMDB_RESERVED,
            r == 0,
    {
        RMDB_MAJOR as u64 * 0x1_0000_0000_0000 + RMDB_MINOR as u64 * 0x1_0000_0000 + RMDB_RELEASE as u64
            * 0x1_0000 + RMDB_RESERVED as u64
    }

    /// The flags with which the database was made.
    pub fn flags(&self) -> (r: RmdbFlags)
        ensures
            r == self.layout.flags,
    {
        self.layout.flags
    }

    /// The size of the file in bytes.
    pub fn size(&self) -> (r: Result<u64, RmdbError>)
        ensures
            r matches Ok(n) && n == self.img().len(),
    {
        Ok(self.wr.mmap.len() as u64)
    }

    /// Starts a transaction that reads.
    pub fn get_read_transaction(&self) -> (r: Result<RmdbTxn<'_>, RmdbError>)
        ensures
            r matches Ok(txn) && txn.rmdb == self && txn.status == RmdbTxnState::Open,
    {
        Ok(RmdbTxn { rmdb: self, status: RmdbTxnState::Open })
    }

    /// What starting a transaction that writes comes to.
    pub open spec fn begins_as(self, r: Result<RmdbWTxn, RmdbError>) -> bool {
        r matches Ok(txn) && {
            &&& txn.inv()
            &&& txn.rmdb == self
            &&& txn.rootpage == self.rootpage
            &&& txn.dirtypages@ == Seq::<u32>::empty()
            &&& txn.deletepages@ == Seq::<u32>::empty()
            &&& txn.tree == self.tree
            &&& txn.base@ == self.base()
            &&& txn.orig@ == self.img()
            &&& txn.whole() == self.readable()
            &&& txn@ == self@
            &&& forall|key: Seq<u8>|
                self@.dom().contains(key) ==> #[trigger] txn.intact(key) == self.intact(key)
            &&& bushy(self.tree@) ==> txn.takes_all()
        }
    }

    /// Starts a transaction that writes. It has the database until it is closed.
    pub fn get_write_transaction(self) -> (r: Result<RmdbWTxn, RmdbError>)
        requires
            self.wf(),
        ensures
            self.begins_as(r),
            r matches Ok(txn) && txn@ == self@,
    {
        let rootpage: u32 = self.rootpage;
        let ghost tree = self.tree@;
        let ghost base = self.base();
        let ghost orig = self.img();
        let txn = RmdbWTxn {
            rmdb: self,
            status: RmdbTxnState::Open,
            rootpage,
            dirtypages: Vec::new(),
            deletepages: Vec::new(),
            tree: Ghost(tree),
            base: Ghost(base),
            orig: Ghost(orig),
        };
        proof {
            lemma_started(self, txn);
            if bushy(tree) {
                lemma_takes_all(txn);
            }
        }
        Ok(txn)
    }
}

impl View for Rmdb {
    type V = Map<Seq<u8>, Seq<u8>>;

    /// The keys and their values.
    open spec fn view(&self) -> Map<Seq<u8>, Seq<u8>> {
        contents(entries(self.tree@))
    }
}

/// Writes a root without children.
fn init_root(img: &mut Vec<u8>, lay: Layout, root: u32)
    requires
        lay.sane(),
        in_img(old(img)@, lay.ps(), root as int),
    ensures
        final(img).len() == old(img).len(),
        in_img(final(img)@, lay.ps(), root as int),
        page_type(final(img)@, lay, root as int) == 0x4004,
        u16_at(page(final(img)@, lay.ps(), root as int), 2) == 0,
        lay.sealed(final(img)@, root as int),
{
    let ps: usize = lay.pagesize;
    let ghost n = root as int;
    let ghost i0 = img@;
    proof {
        lemma_page_len(i0, lay.ps(), n);
        assert(0x0004u16 | 0x4000u16 == 0x4004u16) by (bit_vector);
    }
    set_u16(img, ps, root, POS_PAGETYPE, PAGE_NODE | PAGE_ROOT);
    let ghost i1 = img@;
    set_u16(img, ps, root, NODE_NUMPTRS, 0);
    let ghost i2 = img@;
    lay.integrity_protect(img, root);
    proof {
        let p0 = page(i0, lay.ps(), n);
        let p1 = page(i1, lay.ps(), n);
        let p2 = page(i2, lay.ps(), n);
        let p3 = page(img@, lay.ps(), n);
        lemma_le16(p0, 0, 0x4004u16);
        lemma_le16(p1, 2, 0u16);
        assert forall|i: int| 0 <= i < lay.payload implies #[trigger] p3[i] == p2[i] by {
            assert(p3.subrange(0, lay.payload as int)[i] == p2.subrange(0, lay.payload as int)[i]);
        }
        assert(p3[0] == p1[0] && p3[1] == p1[1] && p3[2] == p2[2] && p3[3] == p2[3]);
    }
}

/// A root without children is a tree.
proof fn lemma_empty_tree(img: Seq<u8>, lay: Layout, root: int)
    requires
        lay.sane(),
        in_img(img, lay.ps(), root),
        1 <= root <= u32::MAX,
        page_type(img, lay, root) == 0x4004,
        u16_at(page(img, lay.ps(), root), 2) == 0,
        lay.sealed(img, root),
    ensures
        ({
            let t = Tree::Node { page: root, kids: Seq::empty() };
            &&& good(img, lay, root, t)
            &&& forall|p: int| #[trigger] has_page(t, p) ==> p == root
            &&& forall|p: int| #[trigger] is_index(t, p) ==> page_type(img, lay, p) != 0x8004
        }),
{
    let t = Tree::Node { page: root, kids: Seq::empty() };
    assert(t.kids().len() == 0);
    assert(holds(img, lay, t, 1, true));
    assert(entries(t).len() == 0);
}

/// Writes to page 0 what does not change as long as the database lives.
fn write_header(img: &mut Vec<u8>, lay: Layout)
    requires
        lay.sane(),
        lay.pagesize <= 0x40000,
        in_img(old(img)@, lay.ps(), 0),
        lay.flags.bits & !ALL_FLAGS == 0,
    ensures
        final(img).len() == old(img).len(),
        header(final(img)@, lay),
        forall|q: int| q != 0 ==> #[trigger] same_page(old(img)@, final(img)@, lay.ps(), q),
        forall|q: int|
            in_img(old(img)@, lay.ps(), q) == #[trigger] in_img(final(img)@, lay.ps(), q),
{
    let ps: usize = lay.pagesize;
    let ghost i0 = img@;
    let sig: [u8; 4] = [0x52, 0x4d, 0x44, 0x42];
    set_bytes(img, ps, 0, RMDB_P_SIG, sig.as_slice());
    let ghost i1 = img@;
    set_u32(img, ps, 0, RMDB_P_VER, RMDB_FILEVER);
    let ghost i2 = img@;
    set_u32(img, ps, 0, RMDB_P_FLAGS, lay.flags.bits());
    let ghost i3 = img@;
    set_u32(img, ps, 0, RMDB_P_PAGESIZE, lay.pagesize as u32);
    proof {
        let i4 = img@;
        lemma_page_len(i0, lay.ps(), 0);
        let p0 = page(i0, lay.ps(), 0);
        let p1 = page(i1, lay.ps(), 0);
        let p2 = page(i2, lay.ps(), 0);
        let p3 = page(i3, lay.ps(), 0);
        let p4 = page(i4, lay.ps(), 0);
        lemma_le32(p1, 4, RMDB_FILEVER);
        lemma_le32(p2, 8, lay.flags.bits);
        lemma_le32(p3, 12, lay.pagesize as u32);
        assert(p4[0] == p1[0] && p4[1] == p1[1] && p4[2] == p1[2] && p4[3] == p1[3]);
        assert(p1[0] == sig@[0] && p1[1] == sig@[1] && p1[2] == sig@[2] && p1[3] == sig@[3]);
        assert(p4[4] == p2[4] && p4[5] == p2[5] && p4[6] == p2[6] && p4[7] == p2[7]);
        assert(p4[8] == p3[8] && p4[9] == p3[9] && p4[10] == p3[10] && p4[11] == p3[11]);
        assert forall|q: int| q != 0 implies #[trigger] same_page(i0, i4, lay.ps(), q) by {
            assert(same_page(i0, i1, lay.ps(), q));
            assert(same_page(i1, i2, lay.ps(), q));
            assert(same_page(i2, i3, lay.ps(), q));
            assert(same_page(i3, i4, lay.ps(), q));
        }
        assert forall|q: int| in_img(i0, lay.ps(), q) == #[trigger] in_img(i4, lay.ps(), q) by {
            assert(in_img(i3, lay.ps(), q) == in_img(i4, lay.ps(), q));
            assert(in_img(i2, lay.ps(), q) == in_img(i3, lay.ps(), q));
            assert(in_img(i1, lay.ps(), q) == in_img(i2, lay.ps(), q));
        }
    }
}

/// Page 0 after its header and then the rest of it was written.
proof fn lemma_header_at(a: Seq<u8>, b: Seq<u8>, c: Seq<u8>, lay: Layout)
    requires
        header(b, lay),
        forall|i: int|
            0 <= i < 16 ==> #[trigger] page(c, lay.ps(), 0)[i] == page(b, lay.ps(), 0)[i],
        forall|q: int| q != 0 ==> #[trigger] same_page(a, b, lay.ps(), q),
        forall|q: int| q != 0 ==> #[trigger] same_page(b, c, lay.ps(), q),
        forall|q: int| in_img(a, lay.ps(), q) == #[trigger] in_img(b, lay.ps(), q),
        forall|q: int| in_img(b, lay.ps(), q) == #[trigger] in_img(c, lay.ps(), q),
    ensures
        header(c, lay),
        forall|q: int| q != 0 ==> #[trigger] same_page(a, c, lay.ps(), q),
        forall|q: int| in_img(a, lay.ps(), q) == #[trigger] in_img(c, lay.ps(), q),
{
    crate::commit::lemma_header_kept(b, c, lay);
    assert forall|q: int| q != 0 implies #[trigger] same_page(a, c, lay.ps(), q) by {
        assert(same_page(a, b, lay.ps(), q));
        assert(same_page(b, c, lay.ps(), q));
    }
    assert forall|q: int| in_img(a, lay.ps(), q) == #[trigger] in_img(c, lay.ps(), q) by {
        assert(in_img(a, lay.ps(), q) == in_img(b, lay.ps(), q));
    }
}

/// Looks at page 0 and at the root, and finds out how pages are laid out.
pub(crate) fn setup(image: &Vec<u8>) -> (r: Result<Layout, RmdbError>)
    ensures
        match r {
            Ok(lay) => {
                let img = image@;
                &&& main_fault(img) is None
                &&& lay == layout_of(img)
                &&& lay.sane()
                &&& in_img(img, lay.ps(), 0)
                &&& in_img(img, lay.ps(), root_of(img, lay))
                &&& total_pages(img, lay) <= img.len() as int / lay.ps()
            },
            Err(e) => main_fault(image@) matches Some(f) && tells(e, f),
        },
{
    let ghost img = image@;
    let flen: usize = image.len();
    let buf: &[u8] = image.as_slice();
    if flen < 4 {
        return Err(RmdbError::InvalidDBFile);
    }
    if buf[0] != 0x52 || buf[1] != 0x4d || buf[2] != 0x44 || buf[3] != 0x42 {
        return Err(RmdbError::IntegrityCheck);
    }
    if flen < 8 {
        return Err(RmdbError::InvalidDBFile);
    }
    if word_at(buf, RMDB_P_VER) != RMDB_FILEVER {
        return Err(RmdbError::IntegrityCheck);
    }
    if flen < 20 {
        return Err(RmdbError::InvalidDBFile);
    }
    let flags: RmdbFlags = match RmdbFlags::from_bits(word_at(buf, RMDB_P_FLAGS)) {
        Some(flags) => flags,
        None => {
            return Err(RmdbError::InvalidDBFile);
        },
    };
    let pagesize: usize = word_at(buf, RMDB_P_PAGESIZE) as usize;
    if pagesize == 0 || flags.contains(RmdbFlags::PAGE_INTEGRITY) && pagesize < RMDB_INTGSIZE {
        return Err(RmdbError::InvalidDBFile);
    }
    let payload: usize = payload_size(pagesize, flags);
    let lay: Layout = Layout { pagesize, payload, flags };
    assert(lay == layout_of(img));
    let dbpages: u32 = word_at(buf, RMDB_P_DBPAGES);
    let pages: usize = flen / pagesize;
    if flen % pagesize != 0 || pages < dbpages as usize {
        return Err(RmdbError::InvalidFileSize);
    }
    if flen < 24 {
        return Err(RmdbError::InvalidDBFile);
    }
    proof {
        let (n, k) = (flen as int, pagesize as int);
        assert(n / k >= 1) by (nonlinear_arith)
            requires
                n % k == 0,
                n >= 1,
                k >= 1,
        ;
        assert((n / k) * k <= n) by (nonlinear_arith)
            requires
                k >= 1,
                n >= 0,
        ;
        crate::bytes::lemma_in_img(img, k, n / k, 0);
    }
    let rootpage: u32 = word_at(buf, RMDB_P_ROOT);
    if rootpage == 0 {
        return Err(RmdbError::IntegrityCheck);
    }
    match lay.integrity_check(buf, 0) {
        Ok(_) => {},
        Err(e) => {
            return Err(e);
        },
    }
    if !page_in(buf, pagesize, rootpage) {
        return Err(RmdbError::InvalidDBFile);
    }
    match lay.integrity_check(buf, rootpage) {
        Ok(_) => {},
        Err(e) => {
            return Err(e);
        },
    }
    if payload < 2 {
        return Err(RmdbError::InvalidDBFile);
    }
    let ptype: u16 = get_u16(buf, pagesize, rootpage, POS_PAGETYPE);
    if ptype & PAGE_ROOT == 0 {
        return Err(RmdbError::IntegrityCheck);
    }
    if payload < 32 {
        return Err(RmdbError::InvalidDBFile);
    }
    proof {
        lemma_page_zero(img, lay.ps());
        let pg = page(img, lay.ps(), 0);
        assert(pg[16] == img[16] && pg[17] == img[17] && pg[18] == img[18] && pg[19] == img[19]);
        assert(pg[20] == img[20] && pg[21] == img[21] && pg[22] == img[22] && pg[23] == img[23]);
    }
    Ok(lay)
}

/// What page 0 says is how the image begins.
pub(crate) proof fn lemma_main(img: Seq<u8>, lay: Layout)
    requires
        lay.ok(),
        in_img(img, lay.ps(), 0),
        header(img, lay),
    ensures
        img.len() >= 32,
        signed(img),
        layout_of(img) == lay,
        u32_at(img, RMDB_P_DBPAGES as int) == total_pages(img, lay),
        u32_at(img, RMDB_P_ROOT as int) == root_of(img, lay),
{
    lemma_page_zero(img, lay.ps());
    let pg = page(img, lay.ps(), 0);
    assert(pg[0] == img[0] && pg[1] == img[1] && pg[2] == img[2] && pg[3] == img[3]);
    assert(pg[4] == img[4] && pg[5] == img[5] && pg[6] == img[6] && pg[7] == img[7]);
    assert(pg[8] == img[8] && pg[9] == img[9] && pg[10] == img[10] && pg[11] == img[11]);
    assert(pg[12] == img[12] && pg[13] == img[13] && pg[14] == img[14] && pg[15] == img[15]);
    assert(pg[16] == img[16] && pg[17] == img[17] && pg[18] == img[18] && pg[19] == img[19]);
    assert(pg[20] == img[20] && pg[21] == img[21] && pg[22] == img[22] && pg[23] == img[23]);
}

/// Nothing keeps a database from being opened.
pub(crate) proof fn lemma_no_fault(img: Seq<u8>, t: Tree, b: Base)
    requires
        database(img, t, b),
    ensures
        fault(img) is None,
        spelled(map_bytes(img, layout_of(img), b.fp), b.ls),
{
    let lay = layout_of(img);
    lemma_types();
    lemma_main(img, lay);
    lemma_page_root(t);
    assert(is_index(t, t.pg()));
    lemma_total_bound(b.ls, total_pages(img, lay));
    assert(spelled(map_bytes(img, lay, b.fp), b.ls));
}

/// The tree of an image has the entries of any that can be read below the root.
proof fn lemma_tree_of(img: Seq<u8>, t: Tree)
    requires
        layout_of(img).sane(),
        good(img, layout_of(img), root_of(img, layout_of(img)), t),
    ensures
        good(img, layout_of(img), root_of(img, layout_of(img)), tree_of(img)),
        entries(tree_of(img)) == entries(t),
{
    let lay = layout_of(img);
    let u = tree_of(img);
    lemma_same_entries(img, lay, u, t, height(u), height(t), true);
}

/// What was opened is the database.
proof fn lemma_opened(db: Rmdb, t: Tree, b: Base)
    requires
        database(db.img(), t, b),
        db.layout == layout_of(db.img()),
        db.rootpage == root_of(db.img(), db.layout),
        db.np() == total_pages(db.img(), db.layout),
        db.tree@ == tree_of(db.img()),
        db.wr.freepages.free == crate::blocks::total(db.wr.ls()),
        forall|ls: Seq<Seq<u32>>| #[trigger]
            spelled(map_bytes(db.img(), db.layout, map_page(db.img(), db.layout)), ls) ==> ls
                == db.wr.ls(),
    ensures
        db.wf(),
        entries(db.tree@) == entries(t),
        db@ == contents(entries(t)),
{
    let img = db.img();
    let lay = db.layout;
    let u = db.tree@;
    let (u2, c) = choose|t: Tree, b: Base| #[trigger] database(img, t, b);
    assert(database(img, u2, c));
    assert(u2 == u);
    lemma_no_fault(img, u, c);
    assert(c.ls == db.wr.ls());
    assert(db.base() == c);
    let (n, k) = (img.len() as int, lay.ps());
    assert((n / k) * k == n) by (nonlinear_arith)
        requires
            n % k == 0,
            k >= 1,
    ;
    crate::bytes::lemma_img_pages(img, k, 0);
    lemma_same_entries(img, lay, u, t, height(u), height(t), true);
}

/// A database that a transaction has been started on.
proof fn lemma_started(db: Rmdb, txn: RmdbWTxn)
    requires
        db.wf(),
        txn.rmdb == db,
        txn.status == RmdbTxnState::Open,
        txn.rootpage == db.rootpage,
        txn.dirtypages@ == Seq::<u32>::empty(),
        txn.deletepages@ == Seq::<u32>::empty(),
        txn.tree@ == db.tree@,
        txn.base@ == db.base(),
        txn.orig@ == db.img(),
    ensures
        txn.inv(),
        forall|key: Seq<u8>|
            db@.dom().contains(key) ==> #[trigger] txn.intact(key) == db.intact(key),
        txn.whole() == db.readable(),
{
    reveal(RmdbWTxn::inv);
    assert forall|p: int| !#[trigger] txn.dirty(p) by {}
    assert forall|p: int| !#[trigger] txn.deleted(p) by {}
    assert forall|p: int| #[trigger] txn.kept(p) implies !txn.free(p) by {
        assert(kept(db.tree@, db.base(), p));
    }
    assert forall|p: int| #[trigger] txn.used(p) implies 1 <= p < txn.np() && !txn.free(p) && !in_map(
        txn.base@,
        p,
    ) by {
        assert(has_page(db.tree@, p));
        assert(txn.kept(p));
    }
    assert forall|p: int| #[trigger] is_index(txn.tree@, p) implies {
        &&& page_type(txn.img(), txn.lay(), p) == 0x8004 ==> !txn.kept(p)
        &&& txn.dirty(p) || (is_index(txn.rmdb.tree@, p) && page_type(txn.img(), txn.lay(), p)
            != 0x8004)
    } by {
        assert(is_index(db.tree@, p));
    }
    let t = db.tree@;
    assert forall|key: Seq<u8>| db@.dom().contains(key) implies #[trigger] txn.intact(key)
        == db.intact(key) by {
        lemma_leaf_mark(db.img(), db.layout, db.rootpage as int, t, key);
        assert(has_page(t, db.marks()[key].page));
        assert(txn.kept(db.marks()[key].page));
    }
    if txn.whole() {
        assert forall|i: int| 0 <= i < entries(t).len() implies (#[trigger] entries(t)[i]).2.right by {
            lemma_place(entries(t), i);
            assert(txn@.dom().contains(entries(t)[i].0));
        }
    }
    if db.readable() {
        assert forall|key: Seq<u8>| #[trigger] txn@.dom().contains(key) implies txn.marks()[key].right by {
            let i = crate::contents::place(entries(t), key);
            assert(0 <= i < entries(t).len() && entries(t)[i].0 == key);
        }
    }
}

} // verus!
