//! The flags of a database.
use vstd::prelude::*;

verus! {

/// A set of flags: one bit each, none but those named here.
#[derive(Clone, Copy, Debug, PartialEq, Eq, Structural)]
pub struct RmdbFlags {
    pub bits: u32,
}

/// All flags together.
pub const ALL_FLAGS: u32 = 127;

impl RmdbFlags {
    pub const PAGE_INTEGRITY: u32 = 1;

    pub const PAGE_ENCRYPTION: u32 = 2;

    pub const PAGE_FLUSH: u32 = 4;

    pub const PAGE_SYNC_FLUSH: u32 = 8;

    pub const TRANSACTION_FLUSH: u32 = 16;

    pub const TRANSACTION_SYNC_FLUSH: u32 = 32;

    pub const ZERO_PAGES: u32 = 64;

    /// Whether every bit of `flag` is set.
    pub open spec fn has(self, flag: u32) -> bool {
        self.bits & flag == flag
    }

    /// Whether pages carry a hash of their contents.
    pub open spec fn integrity(self) -> bool {
        self.has(Self::PAGE_INTEGRITY)
    }

    /// No flag at all.
    pub fn empty() -> (r: Self)
        ensures
            r.bits == 0,
    {
        RmdbFlags { bits: 0 }
    }

    /// The flags of `bits`, unless a bit is set that names no flag.
    pub fn from_bits(bits: u32) -> (r: Option<Self>)
        ensures
            r == (if bits & !ALL_FLAGS == 0 {
                Some(RmdbFlags { bits })
            } else {
                None
            }),
            bits < 128 ==> (r matches Some(f) && f.bits == bits),
            bits >= 128 ==> r is None,
    {
        proof {
            lemma_all_flags(bits);
        }
        if bits & !ALL_FLAGS == 0 {
            Some(RmdbFlags { bits })
        } else {
            None
        }
    }

    /// The bits that are set.
    pub fn bits(&self) -> (r: u32)
        ensures
            r == self.bits,
    {
        self.bits
    }

    /// Whether all bits of `flag` are set.
    pub fn contains(&self, flag: u32) -> (r: bool)
        ensures
            r == self.has(flag),
            r == (self.bits & flag == flag),
    {
        self.bits & flag == flag
    }
}

/// The flags are the seven lowest bits.
pub(crate) proof fn lemma_all_flags(bits: u32)
    ensures
        bits & !ALL_FLAGS == 0 <==> bits < 128,
{
    assert(bits & !127u32 == 0 <==> bits < 128) by (bit_vector);
}

impl Default for RmdbFlags {
    /// Pages carry hashes, and a commit waits until the file is written.
    fn default() -> (r: Self)
        ensures
            r.bits == 33,
            r.bits == RmdbFlags::PAGE_INTEGRITY | RmdbFlags::TRANSACTION_SYNC_FLUSH,
            r.integrity(),
    {
        assert(33u32 == 1u32 | 32u32) by (bit_vector);
        assert(33u32 & 1u32 == 1u32) by (bit_vector);
        RmdbFlags { bits: RmdbFlags::PAGE_INTEGRITY | RmdbFlags::TRANSACTION_SYNC_FLUSH }
    }
}

} // verus!
