//! SHA-256 of bytes, computed by OpenSSL.
use openssl::sha::Sha256;
use vstd::prelude::*;

verus! {

/// `openssl::sha::Sha256`: a hash on its way.
#[verifier::external_type_specification]
#[verifier::external_body]
pub struct ExSha256(Sha256);

/// The bytes that a hasher has been fed, in the order in which they came.
pub uninterp spec fn fed(h: Sha256) -> Seq<u8>;

/// The SHA-256 hash of `data`.
pub uninterp spec fn sha256(data: Seq<u8>) -> Seq<u8>;

/// `Sha256::new`: a new hasher has been fed nothing.
pub assume_specification[ Sha256::new ]() -> (r: Sha256)
    ensures
        fed(r) == Seq::<u8>::empty(),
;

/// `Sha256::update`: feeds the bytes of `buf`, behind those of earlier calls.
pub assume_specification[ Sha256::update ](h: &mut Sha256, buf: &[u8])
    ensures
        fed(*final(h)) == fed(*old(h)) + buf@,
;

/// `Sha256::finish`: the hash of all bytes that were fed.
pub assume_specification[ Sha256::finish ](h: Sha256) -> (r: [u8; 32])
    ensures
        r@ == sha256(fed(h)),
;

/// The pieces of `data`, one behind the other.
pub open spec fn joined(data: Seq<&[u8]>) -> Seq<u8>
    decreases data.len(),
{
    if data.len() == 0 {
        Seq::empty()
    } else {
        joined(data.drop_last()) + data.last()@
    }
}

/// Pieces are taken together in their order, each with all its bytes.
pub proof fn law_joined(data: Seq<&[u8]>)
    ensures
        joined(data) == data.map_values(|d: &[u8]| d@).flatten_alt(),
    decreases data.len(),
{
    let all = data.map_values(|d: &[u8]| d@);
    if data.len() > 0 {
        law_joined(data.drop_last());
        assert(all.drop_last() =~= data.drop_last().map_values(|d: &[u8]| d@));
        assert(all.last() == data.last()@);
    }
}

/// The hash of the pieces of `data` taken together.
pub fn compute_hash(data: &Vec<&[u8]>) -> (r: [u8; 32])
    ensures
        r@ == sha256(joined(data@)),
        r@ == sha256(data@.map_values(|d: &[u8]| d@).flatten_alt()),
{
    proof {
        law_joined(data@);
    }
    let mut hasher = Sha256::new();
    let mut i: usize = 0;
    assert(data@.take(0) =~= Seq::empty());
    while i < data.len()
        invariant
            i <= data.len(),
            fed(hasher) == joined(data@.take(i as int)),
        decreases data.len() - i,
    {
        hasher.update(data[i]);
        proof {
            assert(data@.take(i + 1).drop_last() =~= data@.take(i as int));
            assert(data@.take(i + 1).last() == data@[i as int]);
        }
        i = i + 1;
    }
    assert(data@.take(i as int) =~= data@);
    hasher.finish()
}

/// The hash of one piece.
pub(crate) fn hash_of(data: &[u8]) -> (r: [u8; 32])
    ensures
        r@ == sha256(data@),
{
    let pieces: Vec<&[u8]> = vec![data];
    proof {
        let p = pieces@;
        reveal_with_fuel(joined, 2);
        assert(p.drop_last() =~= Seq::empty());
        assert(joined(p) =~= data@);
    }
    compute_hash(&pieces)
}

/// Whether two pieces hold the same bytes.
pub(crate) fn same_bytes(a: &[u8], b: &[u8]) -> (r: bool)
    ensures
        r == (a@ == b@),
{
    if a.len() != b.len() {
        return false;
    }
    let mut i: usize = 0;
    while i < a.len()
        invariant
            i <= a.len(),
            a.len() == b.len(),
            forall|j: int| 0 <= j < i ==> a[j] == b[j],
        decreases a.len() - i,
    {
        if a[i] != b[i] {
            return false;
        }
        i = i + 1;
    }
    assert(a@ =~= b@);
    true
}

} // verus!
