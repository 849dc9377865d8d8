//! How a database is made: page size, first size, flags.
use crate::db::room_for_map_at;
use crate::flags::{RmdbFlags, ALL_FLAGS};
use crate::freemap::room_for_map;
use crate::layout::Layout;
use vstd::prelude::*;

verus! {

/// Default page size.
pub const RMDB_PAGESIZE: usize = 4096;

/// Smallest page size.
pub const RMDB_MINPAGESIZE: usize = 128;

/// Size of the hash of a page.
pub const RMDB_INTGSIZE: usize = 32;

/// The size in bytes that a database of this page size starts with at least.
pub fn rmdb_minsize(pagesize: usize) -> (r: usize)
    requires
        pagesize * 64 <= usize::MAX,
    ensures
        r == pagesize * 64,
{
    pagesize * 64
}

/// What is left of a page for its contents: all of it, or all but the hash.
pub open spec fn payload_of(pagesize: int, flags: RmdbFlags) -> int {
    if flags.integrity() {
        pagesize - RMDB_INTGSIZE
    } else {
        pagesize
    }
}

/// How much of a page is free for use: with hashes the last bytes are not.
pub fn payload_size(pagesize: usize, flags: RmdbFlags) -> (r: usize)
    requires
        flags.integrity() ==> pagesize >= RMDB_INTGSIZE,
    ensures
        r == payload_of(pagesize as int, flags),
        flags.bits & 1 == 1 ==> r == pagesize - 32,
        flags.bits & 1 != 1 ==> r == pagesize,
{
    let mut size: usize = pagesize;
    if flags.contains(RmdbFlags::PAGE_INTEGRITY) {
        size = size - RMDB_INTGSIZE;
    }
    size
}

/// What a database is made with.
#[derive(Clone, Copy, Debug)]
pub struct RmdbOptions {
    pub init_size: usize,
    pub pagesize: usize,
    pub flags: RmdbFlags,
    pub readonly: bool,
}

impl RmdbOptions {
    /// Default flags, 4k pages, 64 of them.
    pub fn new() -> (r: Self)
        ensures
            r.init_size == RMDB_PAGESIZE * 64,
            r.pagesize == RMDB_PAGESIZE,
            r.init_size == 262144,
            r.pagesize == 4096,
            r.flags.bits == 33,
            r.flags.integrity(),
            !r.readonly,
            r.usable(),
    {
        assert(33u32 & !127u32 == 0) by (bit_vector);
        RmdbOptions {
            init_size: rmdb_minsize(RMDB_PAGESIZE),
            pagesize: RMDB_PAGESIZE,
            flags: RmdbFlags::default(),
            readonly: false,
        }
    }

    /// The page size that a request for pages of `s` bytes gets.
    pub open spec fn at_least_min(s: usize) -> usize {
        if s < RMDB_MINPAGESIZE {
            RMDB_MINPAGESIZE
        } else {
            s
        }
    }

    /// Whether `self` is `o` with pages of the size that a request for `s` bytes gets.
    pub open spec fn paged(self, o: RmdbOptions, s: usize) -> bool {
        self == (RmdbOptions {
            pagesize: Self::at_least_min(s),
            init_size: if o.init_size < Self::at_least_min(s) * 64 {
                (Self::at_least_min(s) * 64) as usize
            } else {
                o.init_size
            },
            ..o
        })
    }

    /// Sets the page size, and raises the first size to 64 pages where it is less.
    pub fn pagesize(&mut self, s: usize) -> (r: &mut Self)
        requires
            s * 64 <= usize::MAX,
        ensures
            r.paged(*old(self), s),
            s >= 128 ==> r.pagesize == s,
            s < 128 ==> r.pagesize == 128,
            *final(self) == *final(r),
    {
        let mut size: usize = s;
        if size < RMDB_MINPAGESIZE {
            size = RMDB_MINPAGESIZE;
        }
        let is: usize = rmdb_minsize(size);
        if self.init_size < is {
            self.init_size = is;
        }
        self.pagesize = size;
        self
    }

    /// Sets the size in bytes that the database starts with.
    pub fn initial_size(&mut self, s: usize) -> (r: &mut Self)
        ensures
            *r == (RmdbOptions { init_size: s, ..*old(self) }),
            *final(self) == *final(r),
    {
        self.init_size = s;
        self
    }

    /// Sets the flags.
    pub fn flags(&mut self, f: RmdbFlags) -> (r: &mut Self)
        ensures
            *r == (RmdbOptions { flags: f, ..*old(self) }),
            *final(self) == *final(r),
    {
        self.flags = f;
        self
    }

    /// Asks for a database that is only read.
    pub fn readonly(&mut self) -> (r: &mut Self)
        ensures
            *r == (RmdbOptions { readonly: true, ..*old(self) }),
            *final(self) == *final(r),
    {
        self.readonly = true;
        self
    }
}

impl RmdbOptions {
    /// How the pages of a database with these options are laid out.
    pub open spec fn layout(self) -> Layout {
        Layout {
            pagesize: self.pagesize,
            payload: payload_of(self.pagesize as int, self.flags) as usize,
            flags: self.flags,
        }
    }

    /// How many pages a database with these options has at first.
    pub open spec fn pages(self) -> int {
        (self.init_size + self.pagesize - 1) / self.pagesize as int
    }

    /// Whether a database can be made: its nodes can count their children, it has at least
    /// two pages, and its pages can be counted.
    pub open spec fn usable(self) -> bool {
        &&& 128 <= self.pagesize <= 0x40000
        &&& self.flags.bits & !ALL_FLAGS == 0
        &&& self.pages() >= 2
        &&& room_for_map(self.pages() + 9, self.pagesize as int)
    }

    /// Whether a database can be made with these options.
    pub fn is_usable(&self) -> (r: bool)
        ensures
            r == self.usable(),
    {
        if self.pagesize < 128 || self.pagesize > 0x40000 || self.flags.bits & !ALL_FLAGS != 0 {
            return false;
        }
        let mut pages: usize = self.init_size / self.pagesize;
        let left: usize = self.init_size % self.pagesize;
        proof {
            let (n, k) = (self.init_size as int, self.pagesize as int);
            let (a, b) = (n / k, n % k);
            assert((n + k - 1) / k == (if b == 0 {
                a
            } else {
                a + 1
            })) by (nonlinear_arith)
                requires
                    a == n / k,
                    b == n % k,
                    k >= 1,
                    n >= 0,
            ;
            assert(a <= n / 128) by (nonlinear_arith)
                requires
                    a == n / k,
                    k >= 128,
                    n >= 0,
            ;
        }
        if left > 0 {
            pages = pages + 1;
        }
        if pages < 2 {
            return false;
        }
        pages < 0x1fff_5fff && room_for_map_at(pages + 9, self.pagesize)
    }
}

} // verus!
