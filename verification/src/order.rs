//! The order of keys: byte by byte, a prefix before what it begins.
use vstd::prelude::*;

verus! {

/// Whether key `a` comes before key `b`.
pub open spec fn lt(a: Seq<u8>, b: Seq<u8>) -> bool
    decreases a.len(),
{
    if b.len() == 0 {
        false
    } else if a.len() == 0 {
        true
    } else if a[0] != b[0] {
        a[0] < b[0]
    } else {
        lt(a.drop_first(), b.drop_first())
    }
}

/// How one key stands to another.
#[derive(Clone, Copy, Debug, PartialEq, Eq, Structural)]
pub enum Rank {
    Before,
    Same,
    Behind,
}

/// No key comes before itself.
pub proof fn lemma_lt_irreflexive(a: Seq<u8>)
    ensures
        !lt(a, a),
    decreases a.len(),
{
    if a.len() > 0 {
        lemma_lt_irreflexive(a.drop_first());
    }
}

/// What comes before `b` comes before all that `b` comes before.
pub proof fn lemma_lt_transitive(a: Seq<u8>, b: Seq<u8>, c: Seq<u8>)
    requires
        lt(a, b),
        lt(b, c),
    ensures
        lt(a, c),
    decreases a.len(),
{
    if a.len() > 0 && a[0] == b[0] && b[0] == c[0] {
        lemma_lt_transitive(a.drop_first(), b.drop_first(), c.drop_first());
    }
}

/// Of two different keys one comes before the other.
pub proof fn lemma_lt_total(a: Seq<u8>, b: Seq<u8>)
    ensures
        lt(a, b) || a == b || lt(b, a),
    decreases a.len(),
{
    if a.len() > 0 && b.len() > 0 && a[0] == b[0] {
        lemma_lt_total(a.drop_first(), b.drop_first());
        if a.drop_first() == b.drop_first() {
            assert(a =~= seq![a[0]] + a.drop_first());
            assert(b =~= seq![b[0]] + b.drop_first());
        }
    } else if a.len() == 0 && b.len() == 0 {
        assert(a =~= b);
    }
}

/// Of two keys at most one comes before the other, and then they are not the same.
pub proof fn lemma_lt_apart(a: Seq<u8>, b: Seq<u8>)
    requires
        lt(a, b),
    ensures
        !lt(b, a),
        a != b,
{
    lemma_lt_irreflexive(a);
    if lt(b, a) {
        lemma_lt_transitive(a, b, a);
    }
}

/// Two keys that begin with the same `n` bytes stand as what follows does.
proof fn lemma_lt_skip(a: Seq<u8>, b: Seq<u8>, n: int)
    requires
        0 <= n <= a.len(),
        n <= b.len(),
        forall|i: int| 0 <= i < n ==> a[i] == b[i],
    ensures
        lt(a, b) == lt(a.skip(n), b.skip(n)),
    decreases n,
{
    if n == 0 {
        assert(a.skip(0) =~= a);
        assert(b.skip(0) =~= b);
    } else {
        lemma_lt_skip(a.drop_first(), b.drop_first(), n - 1);
        assert(a.drop_first().skip(n - 1) =~= a.skip(n));
        assert(b.drop_first().skip(n - 1) =~= b.skip(n));
    }
}

/// Where the first of two keys comes before the second.
proof fn lemma_lesser_from(a: Seq<u8>, b: Seq<u8>) -> (i: int)
    requires
        lt(a, b),
    ensures
        0 <= i <= a.len(),
        i < b.len(),
        a.take(i) == b.take(i),
        i == a.len() || a[i] < b[i],
    decreases a.len(),
{
    if a.len() > 0 && a[0] == b[0] {
        let i = lemma_lesser_from(a.drop_first(), b.drop_first()) + 1;
        assert(a.take(i) =~= seq![a[0]] + a.drop_first().take(i - 1));
        assert(b.take(i) =~= seq![b[0]] + b.drop_first().take(i - 1));
        i
    } else {
        assert(a.take(0) =~= b.take(0));
        0
    }
}

/// The order of keys is that of their bytes: one key comes before another exactly where, at
/// the first place at which they differ, it has ended or has the lesser byte.
pub proof fn law_byte_order(a: Seq<u8>, b: Seq<u8>)
    ensures
        lt(a, b) <==> exists|i: int|
            0 <= i <= a.len() && i < b.len() && #[trigger] a.take(i) == b.take(i) && (i
                == a.len() || a[i] < b[i]),
{
    if lt(a, b) {
        let i = lemma_lesser_from(a, b);
    }
    assert forall|i: int|
        0 <= i <= a.len() && i < b.len() && #[trigger] a.take(i) == b.take(i) && (i == a.len() || a[i]
            < b[i]) implies lt(a, b) by {
        assert forall|j: int| 0 <= j < i implies a[j] == b[j] by {
            assert(a.take(i)[j] == b.take(i)[j]);
        }
        lemma_lt_skip(a, b, i);
    }
}

/// A key comes before another, or behind it, or is the same.
proof fn lemma_one_rank(a: Seq<u8>, b: Seq<u8>)
    ensures
        lt(a, b) <==> exists|i: int|
            0 <= i <= a.len() && i < b.len() && #[trigger] a.take(i) == b.take(i) && (i
                == a.len() || a[i] < b[i]),
        lt(b, a) <==> exists|i: int|
            0 <= i <= b.len() && i < a.len() && #[trigger] b.take(i) == a.take(i) && (i
                == b.len() || b[i] < a[i]),
        lt(a, b) ==> !lt(b, a) && a != b,
        lt(b, a) ==> !lt(a, b) && a != b,
{
    law_byte_order(a, b);
    law_byte_order(b, a);
    if lt(a, b) {
        lemma_lt_apart(a, b);
    }
    if lt(b, a) {
        lemma_lt_apart(b, a);
    }
}

/// How key `a` stands to key `b`.
pub fn rank(a: &[u8], b: &[u8]) -> (r: Rank)
    ensures
        match r {
            Rank::Before => lt(a@, b@),
            Rank::Same => a@ == b@,
            Rank::Behind => lt(b@, a@),
        },
        r is Before <==> exists|i: int|
            0 <= i <= a@.len() && i < b@.len() && #[trigger] a@.take(i) == b@.take(i) && (i
                == a@.len() || a@[i] < b@[i]),
        r is Behind <==> exists|i: int|
            0 <= i <= b@.len() && i < a@.len() && #[trigger] b@.take(i) == a@.take(i) && (i
                == b@.len() || b@[i] < a@[i]),
        r is Same <==> a@ == b@,
{
    let mut i: usize = 0;
    while i < a.len() && i < b.len()
        invariant
            i <= a.len(),
            i <= b.len(),
            forall|j: int| 0 <= j < i ==> a[j] == b[j],
        decreases a.len() - i,
    {
        if a[i] != b[i] {
            proof {
                lemma_lt_skip(a@, b@, i as int);
                lemma_lt_skip(b@, a@, i as int);
                lemma_one_rank(a@, b@);
            }
            if a[i] < b[i] {
                return Rank::Before;
            }
            return Rank::Behind;
        }
        i = i + 1;
    }
    proof {
        lemma_lt_skip(a@, b@, i as int);
        lemma_lt_skip(b@, a@, i as int);
        lemma_one_rank(a@, b@);
    }
    if i < b.len() {
        return Rank::Before;
    }
    if i < a.len() {
        return Rank::Behind;
    }
    assert(a@ =~= b@);
    Rank::Same
}

} // verus!
