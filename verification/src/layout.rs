//! How a page is laid out, and the hash that protects it.
//!
//! Page 0 holds the signature, the version, the flags, the page size, the number of
//! pages, and where the root and the map of free pages are. A node holds pointers to
//! its children, a leaf one key with its value. With integrity on, the last bytes of a
//! page hold the hash of the others.
use crate::bytes::{in_img, lemma_page_len, page, page_bytes, page_in, same_page, set_bytes};
use crate::error::RmdbError;
use crate::flags::RmdbFlags;
use crate::hash::{compute_hash, hash_of, joined, same_bytes, sha256};
use crate::options::{payload_of, RMDB_INTGSIZE};
use vstd::prelude::*;

verus! {

/// Version of the file format.
pub const RMDB_FILEVER: u32 = 3;

/// Size of a page pointer.
pub const PTRSZ: usize = 4;

/// Places in page 0.
pub const RMDB_P_SIG: usize = 0;

pub const RMDB_P_VER: usize = 4;

pub const RMDB_P_FLAGS: usize = 8;

pub const RMDB_P_PAGESIZE: usize = 12;

pub const RMDB_P_DBPAGES: usize = 16;

pub const RMDB_P_ROOT: usize = 20;

pub const RMDB_P_FREEPAGES: usize = 24;

pub const RMDB_P_FREESIZE: usize = 28;

/// Where the type of a page stands, and where its data begin.
pub const POS_PAGETYPE: usize = 0;

pub const POS_PAGEDATA: usize = 4;

/// The bits of a page's type.
pub const PAGE_FREE: u16 = 0x0002;

pub const PAGE_NODE: u16 = 0x0004;

pub const PAGE_LEAF: u16 = 0x0008;

pub const PAGE_ROOT: u16 = 0x4000;

pub const PAGE_DIRTY: u16 = 0x8000;

/// Places in the map of free pages.
pub const FREE_MAP_SIZE: usize = 4;

pub const FREE_MAP: usize = 8;

/// Places in a node.
pub const NODE_NUMPTRS: usize = 2;

pub const NODE_FIRSTPTR: usize = 4;

/// Places in a leaf, and where its one cell begins.
pub const LEAF_KEYNUM: usize = 2;

pub const LEAF_KEYPTRS: usize = 4;

pub const LEAF_CELL: usize = 8;

/// Where the key of a cell begins.
pub const LEAF_PL_KEY: usize = 2;

/// What reading and writing pages depends on.
#[derive(Clone, Copy, Debug)]
pub struct Layout {
    /// Size of a page.
    pub pagesize: usize,
    /// What of a page is left for its contents.
    pub payload: usize,
    pub flags: RmdbFlags,
}

/// The next multiple of four.
pub open spec fn aligned(n: int) -> int {
    (n + 3) / 4 * 4
}

/// The next multiple of four.
pub(crate) fn align(n: usize) -> (r: usize)
    requires
        n + 3 <= usize::MAX,
    ensures
        r == aligned(n as int),
        n <= r < n + 4,
{
    (n + 3) / 4 * 4
}

/// The number of a node's children, as they fill its page.
pub open spec fn topptr(n: int) -> int {
    NODE_FIRSTPTR + n * PTRSZ
}

impl Layout {
    /// A page has room for what page 0 holds.
    pub open spec fn sane(self) -> bool {
        &&& 32 <= self.payload <= self.pagesize
        &&& self.payload == payload_of(self.pagesize as int, self.flags)
    }

    /// A page size that databases are made with, and whose nodes can count their children.
    pub open spec fn ok(self) -> bool {
        &&& self.sane()
        &&& 128 <= self.pagesize <= 0x40000
    }

    /// The page size as a number.
    pub open spec fn ps(self) -> int {
        self.pagesize as int
    }

    /// Whether page `p` ends in the hash of its contents, where pages have one.
    pub open spec fn sealed(self, img: Seq<u8>, p: int) -> bool {
        self.flags.integrity() ==> {
            let pg = page(img, self.ps(), p);
            pg.subrange(self.payload as int, self.ps()) == sha256(
                pg.subrange(0, self.payload as int),
            )
        }
    }

    /// Puts the hash of the contents of page `p` at its end, where pages have one.
    pub(crate) fn integrity_protect(&self, img: &mut Vec<u8>, p: u32)
        requires
            self.sane(),
            in_img(old(img)@, self.ps(), p as int),
        ensures
            final(img).len() == old(img).len(),
            self.sealed(final(img)@, p as int),
            page(final(img)@, self.ps(), p as int).len() == self.ps(),
            page(final(img)@, self.ps(), p as int).subrange(0, self.payload as int) == page(
                old(img)@,
                self.ps(),
                p as int,
            ).subrange(0, self.payload as int),
            forall|q: int| q != p ==> #[trigger] same_page(old(img)@, final(img)@, self.ps(), q),
            forall|q: int|
                in_img(old(img)@, self.ps(), q) == #[trigger] in_img(final(img)@, self.ps(), q),
    {
        let ps: usize = self.pagesize;
        let ghost b = img@;
        proof {
            lemma_page_len(b, ps as int, p as int);
        }
        if self.flags.contains(RmdbFlags::PAGE_INTEGRITY) {
            let hash: [u8; 32] = hash_of(
                page_bytes(img.as_slice(), ps, p, 0, ps - RMDB_INTGSIZE),
            );
            set_bytes(img, ps, p, ps - RMDB_INTGSIZE, hash.as_slice());
            proof {
                let pl = self.payload as int;
                let old = page(b, ps as int, p as int);
                let new = page(img@, ps as int, p as int);
                assert(new.subrange(0, pl) =~= old.subrange(0, pl));
                assert(new.subrange(pl, ps as int) =~= hash@);
            }
        }
    }

    /// Checks page `p` against the hash at its end, where pages have one.
    pub(crate) fn integrity_check(&self, img: &[u8], p: u32) -> (r: Result<(), RmdbError>)
        requires
            self.payload <= self.pagesize,
            self.pagesize >= 1,
        ensures
            match r {
                Ok(_) => self.flags.integrity() ==> in_img(img@, self.ps(), p as int)
                    && self.sealed(img@, p as int),
                Err(e) => self.flags.integrity() && (if in_img(img@, self.ps(), p as int) {
                    !self.sealed(img@, p as int) && e is IntegrityCheck
                } else {
                    e is InvalidMetadata
                }),
            },
    {
        if !self.flags.contains(RmdbFlags::PAGE_INTEGRITY) {
            return Ok(());
        }
        let ps: usize = self.pagesize;
        if !page_in(img, ps, p) {
            return Err(RmdbError::InvalidMetadata);
        }
        let hash: [u8; 32] = hash_of(page_bytes(img, ps, p, 0, self.payload));
        if !same_bytes(page_bytes(img, ps, p, self.payload, ps), hash.as_slice()) {
            return Err(RmdbError::IntegrityCheck);
        }
        Ok(())
    }

    /// Checks data against their hash, where they have one.
    pub(crate) fn data_integrity_check(&self, data: &Vec<&[u8]>, verify: &[u8]) -> (r: Result<
        (),
        RmdbError,
    >)
        ensures
            match r {
                Ok(_) => !self.flags.integrity() || verify@ == sha256(joined(data@)),
                Err(e) => self.flags.integrity() && verify@ != sha256(joined(data@))
                    && e is IntegrityCheck,
            },
    {
        if !self.flags.contains(RmdbFlags::PAGE_INTEGRITY) {
            return Ok(());
        }
        let hash: [u8; 32] = compute_hash(data);
        if !same_bytes(verify, hash.as_slice()) {
            return Err(RmdbError::IntegrityCheck);
        }
        Ok(())
    }
}

} // verus!
