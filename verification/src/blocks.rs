//! The lists of free pages: blocks of consecutive pages, listed by size.
//!
//! A block of order `o` holds 2^o pages. `lists[o]` holds the first pages of the
//! free blocks of order `o`, in ascending order.
use crate::error::RmdbError;
use vstd::arithmetic::power2::{
    lemma_pow2_pos, lemma_pow2_strictly_increases, lemma_pow2_unfold, pow2,
};
use vstd::prelude::*;

verus! {

/// The highest order of a block.
pub const RMDB_MAXORDER: usize = 31;

/// Whether there is an `i`-th block of order `o`.
pub open spec fn listed(ls: Seq<Seq<u32>>, o: int, i: int) -> bool {
    0 <= o < ls.len() && 0 <= i < ls[o].len()
}

/// Whether the `i`-th block of order `o` holds page `p`.
pub open spec fn covers(ls: Seq<Seq<u32>>, o: int, i: int, p: int) -> bool {
    listed(ls, o, i) && ls[o][i] <= p < ls[o][i] + pow2(o as nat)
}

/// Whether page `p` is free.
pub open spec fn in_free(ls: Seq<Seq<u32>>, p: int) -> bool {
    exists|o: int, i: int| #[trigger] covers(ls, o, i, p)
}

/// Whether two blocks have no page in common.
pub open spec fn apart(ls: Seq<Seq<u32>>, o: int, i: int, o2: int, i2: int) -> bool {
    ls[o][i] + pow2(o as nat) <= ls[o2][i2] || ls[o2][i2] + pow2(o2 as nat) <= ls[o][i]
}

/// The lists are sorted, their blocks lie in pages 1 to `lim`, and no page is in two.
pub open spec fn lists_ok(ls: Seq<Seq<u32>>, lim: int) -> bool {
    &&& ls.len() == RMDB_MAXORDER + 1
    &&& forall|o: int, i: int, j: int|
        #![trigger ls[o][i], ls[o][j]]
        0 <= o < ls.len() && 0 <= i < j < ls[o].len() ==> ls[o][i] < ls[o][j]
    &&& forall|o: int, i: int| #[trigger]
        listed(ls, o, i) ==> 1 <= ls[o][i] && ls[o][i] + pow2(o as nat) <= lim
    &&& forall|o: int, i: int, o2: int, i2: int| #[trigger]
        listed(ls, o, i) && #[trigger] listed(ls, o2, i2) && (o != o2 || i != i2) ==> apart(
            ls,
            o,
            i,
            o2,
            i2,
        )
}

/// Where `x` goes in a sorted list: behind all that is less.
pub open spec fn place(s: Seq<u32>, x: int) -> int
    decreases s.len(),
{
    if s.len() == 0 || s.last() < x {
        s.len() as int
    } else {
        place(s.drop_last(), x)
    }
}

/// The place of `x` is the one behind all that is less and before all that is not.
pub proof fn lemma_place(s: Seq<u32>, x: int, pos: int)
    requires
        0 <= pos <= s.len(),
        forall|i: int| 0 <= i < pos ==> s[i] < x,
        forall|i: int| pos <= i < s.len() ==> s[i] >= x,
    ensures
        place(s, x) == pos,
    decreases s.len(),
{
    if s.len() > 0 && pos < s.len() {
        assert(s.last() >= x);
        lemma_place(s.drop_last(), x, pos);
    }
}

/// The lists with a block more, in its place.
pub open spec fn put_block(ls: Seq<Seq<u32>>, o: int, b: int) -> Seq<Seq<u32>> {
    with_block(ls, o, place(ls[o], b), b as u32)
}

/// The lists without a block that is listed.
pub open spec fn cut_block(ls: Seq<Seq<u32>>, o: int, b: int) -> Seq<Seq<u32>> {
    without_block(ls, o, place(ls[o], b))
}

/// The block with which a block makes one of the next order: the one above where the
/// two start at a multiple of their common size, else the one below.
pub open spec fn buddy(b: int, o: int) -> int {
    if b % pow2((o + 1) as nat) as int == 0 {
        b + pow2(o as nat)
    } else {
        b - pow2(o as nat)
    }
}

/// What becomes of a block while its buddy is listed: the lists without the buddies, the
/// block that they make, and its order.
pub open spec fn merged(ls: Seq<Seq<u32>>, b: int, o: int) -> (Seq<Seq<u32>>, int, int)
    decreases RMDB_MAXORDER - o,
{
    let c = buddy(b, o);
    if o < RMDB_MAXORDER && !among(ls[o], b) && among(ls[o], c) {
        merged(
            cut_block(ls, o, c),
            if c < b {
                c
            } else {
                b
            },
            o + 1,
        )
    } else {
        (ls, b, o)
    }
}

/// Whether the block that is to be given back, or what it becomes, is listed already.
pub open spec fn refused(ls: Seq<Seq<u32>>, b: int, o: int) -> bool {
    let m = merged(ls, b, o);
    among(m.0[m.2], m.1)
}

/// The lists after a block was given back.
pub open spec fn consolidated(ls: Seq<Seq<u32>>, b: int, o: int) -> Seq<Seq<u32>> {
    let m = merged(ls, b, o);
    put_block(m.0, m.2, m.1)
}

/// Whether no page of a block is free.
pub open spec fn not_free(ls: Seq<Seq<u32>>, b: int, o: int) -> bool {
    forall|p: int| b <= p < b + pow2(o as nat) ==> !in_free(ls, p)
}

/// Whether every block starts at a multiple of its size, and no block is listed together
/// with its buddy.
pub open spec fn neat(ls: Seq<Seq<u32>>) -> bool {
    &&& forall|o: int, i: int| #[trigger]
        listed(ls, o, i) ==> ls[o][i] as int % pow2(o as nat) as int == 0
    &&& forall|o: int, i: int| #[trigger]
        listed(ls, o, i) && o < RMDB_MAXORDER ==> !among(ls[o], buddy(ls[o][i] as int, o))
}

/// The buddy of a block that starts at a multiple of its size: it is the buddy's buddy, and
/// the lower of the two starts at a multiple of their common size.
pub proof fn lemma_buddy(b: int, o: int)
    requires
        0 <= o,
        b % pow2(o as nat) as int == 0,
    ensures
        buddy(b, o) != b,
        buddy(buddy(b, o), o) == b,
        b % pow2((o + 1) as nat) as int == 0 || buddy(b, o) % pow2((o + 1) as nat) as int == 0,
        b % pow2((o + 1) as nat) as int == 0 <==> b < buddy(b, o),
{
    let p = pow2(o as nat) as int;
    lemma_pow2_pos(o as nat);
    lemma_pow2_unfold((o + 1) as nat);
    let q = pow2((o + 1) as nat) as int;
    assert(q == 2 * p);
    let k = b / p;
    assert(b == k * p) by (nonlinear_arith)
        requires
            b % p == 0,
            p > 0,
            k == b / p,
    ;
    let h = k / 2;
    if k % 2 == 0 {
        assert(b == h * q) by (nonlinear_arith)
            requires
                b == k * p,
                k == 2 * h,
                q == 2 * p,
        ;
        vstd::arithmetic::div_mod::lemma_mod_multiples_basic(h, q);
        vstd::arithmetic::div_mod::lemma_mod_multiples_vanish(h, p, q);
        assert(q * h + p == b + p) by (nonlinear_arith)
            requires
                b == h * q,
        ;
        assert((b + p) % q == p % q);
        vstd::arithmetic::div_mod::lemma_small_mod(p as nat, q as nat);
    } else {
        assert(b - p == h * q) by (nonlinear_arith)
            requires
                b == k * p,
                k == 2 * h + 1,
                q == 2 * p,
        ;
        vstd::arithmetic::div_mod::lemma_mod_multiples_basic(h, q);
        vstd::arithmetic::div_mod::lemma_mod_multiples_vanish(h, p, q);
        assert(q * h + p == b) by (nonlinear_arith)
            requires
                b - p == h * q,
        ;
        vstd::arithmetic::div_mod::lemma_small_mod(p as nat, q as nat);
    }
}

/// Neat lists stay so with a block less.
pub(crate) proof fn lemma_neat_without(ls: Seq<Seq<u32>>, o: int, pos: int)
    requires
        neat(ls),
        listed(ls, o, pos),
    ensures
        neat(without_block(ls, o, pos)),
{
    let n = without_block(ls, o, pos);
    assert forall|a: int, i: int| #[trigger] listed(n, a, i) implies n[a][i] as int % pow2(a as nat) as int
        == 0 && (a < RMDB_MAXORDER ==> !among(n[a], buddy(n[a][i] as int, a))) by {
        let j = if a == o && i >= pos {
            i + 1
        } else {
            i
        };
        assert(listed(ls, a, j));
        assert(n[a][i] == ls[a][j]);
        let c = buddy(n[a][i] as int, a);
        if among(n[a], c) {
            let x = choose|x: int| 0 <= x < n[a].len() && #[trigger] n[a][x] == c;
            let y = if a == o && x >= pos {
                x + 1
            } else {
                x
            };
            assert(ls[a][y] == c);
        }
    }
}

/// Neat lists stay so with a block more whose buddy is not listed.
proof fn lemma_neat_with(ls: Seq<Seq<u32>>, o: int, pos: int, b: u32)
    requires
        neat(ls),
        0 <= o < ls.len(),
        0 <= pos <= ls[o].len(),
        b as int % pow2(o as nat) as int == 0,
        o < RMDB_MAXORDER ==> !among(ls[o], buddy(b as int, o)),
    ensures
        neat(with_block(ls, o, pos, b)),
{
    let n = with_block(ls, o, pos, b);
    lemma_buddy(b as int, o);
    assert forall|a: int, i: int| #[trigger] listed(n, a, i) implies n[a][i] as int % pow2(a as nat) as int
        == 0 && (a < RMDB_MAXORDER ==> !among(n[a], buddy(n[a][i] as int, a))) by {
        if a != o {
            assert(listed(ls, a, i));
        } else {
            let x = n[o][i];
            if i != pos {
                let j = if i > pos {
                    i - 1
                } else {
                    i
                };
                assert(listed(ls, o, j));
                assert(x == ls[o][j]);
                lemma_buddy(x as int, o);
            }
            let c = buddy(x as int, o);
            if o < RMDB_MAXORDER && among(n[o], c) {
                let y = choose|y: int| 0 <= y < n[o].len() && #[trigger] n[o][y] == c;
                if y == pos {
                    // the new block is the buddy of an old one
                    assert(buddy(b as int, o) == x);
                    let j = if i > pos {
                        i - 1
                    } else {
                        i
                    };
                    assert(ls[o][j] == x);
                } else {
                    let z = if y > pos {
                        y - 1
                    } else {
                        y
                    };
                    assert(ls[o][z] == c);
                }
            }
        }
    }
}

/// The lists after the `s` pages from `at` on were listed, in blocks of ascending order
/// from `o` on.
pub open spec fn carved(ls: Seq<Seq<u32>>, at: int, s: int, o: int) -> Seq<Seq<u32>>
    decreases s,
{
    if s <= 0 {
        ls
    } else if s % 2 == 1 {
        carved(put_block(ls, o, at), at + pow2(o as nat), s / 2, o + 1)
    } else {
        carved(ls, at, s / 2, o + 1)
    }
}

/// The lists after the `s` pages from `at` on were given back, in blocks of descending
/// order from `o` on.
pub open spec fn spread(ls: Seq<Seq<u32>>, at: int, s: int, o: int) -> Seq<Seq<u32>>
    decreases o + 1,
{
    if s <= 0 || o < 0 {
        ls
    } else if pow2(o as nat) <= s {
        spread(consolidated(ls, at, o), at + pow2(o as nat), s - pow2(o as nat), o - 1)
    } else {
        spread(ls, at, s, o - 1)
    }
}

/// The lists after the pages of the sorted list `s` were given back: an even page and its
/// successor as one block, any other page alone.
pub open spec fn returned(ls: Seq<Seq<u32>>, s: Seq<u32>) -> Seq<Seq<u32>>
    decreases s.len(),
{
    if s.len() == 0 {
        ls
    } else if s[0] % 2 == 0 && s.len() > 1 && s[1] == s[0] + 1 {
        returned(consolidated(ls, s[0] as int, 1), s.skip(2))
    } else {
        returned(consolidated(ls, s[0] as int, 0), s.skip(1))
    }
}

/// Whether `s` is the list `v` in ascending order.
pub open spec fn sorts(s: Seq<u32>, v: Seq<u32>) -> bool {
    &&& s.len() == v.len()
    &&& forall|i: int, j: int| 0 <= i < j < s.len() ==> s[i] < s[j]
    &&& forall|p: int| #[trigger] among(s, p) <==> among(v, p)
}

/// How many pages the blocks hold together.
pub open spec fn total(ls: Seq<Seq<u32>>) -> nat
    decreases ls.len(),
{
    if ls.len() == 0 {
        0
    } else {
        total(ls.drop_last()) + ls.last().len() * pow2((ls.len() - 1) as nat)
    }
}

/// How many blocks are listed.
pub open spec fn num_blocks(ls: Seq<Seq<u32>>) -> nat
    decreases ls.len(),
{
    if ls.len() == 0 {
        0
    } else {
        num_blocks(ls.drop_last()) + ls.last().len()
    }
}

/// Whether there is a block of order `x` or more.
pub open spec fn has_order(ls: Seq<Seq<u32>>, x: int) -> bool {
    exists|o: int| x <= o < ls.len() && (#[trigger] ls[o]).len() > 0
}

/// The lists with block `b` put in at place `pos` of order `o`.
pub open spec fn with_block(ls: Seq<Seq<u32>>, o: int, pos: int, b: u32) -> Seq<Seq<u32>> {
    ls.update(o, ls[o].insert(pos, b))
}

/// The lists without the block at place `pos` of order `o`.
pub open spec fn without_block(ls: Seq<Seq<u32>>, o: int, pos: int) -> Seq<Seq<u32>> {
    ls.update(o, ls[o].remove(pos))
}

/// How the counts of pages and of blocks change with one list.
proof fn lemma_total_update(ls: Seq<Seq<u32>>, o: int, l: Seq<u32>)
    requires
        0 <= o < ls.len(),
    ensures
        total(ls.update(o, l)) == total(ls) + (l.len() - ls[o].len()) * pow2(o as nat),
        num_blocks(ls.update(o, l)) == num_blocks(ls) + l.len() - ls[o].len(),
    decreases ls.len(),
{
    let n = ls.update(o, l);
    let last: int = ls.len() - 1;
    if o == last {
        assert(n.drop_last() =~= ls.drop_last());
        let k: int = pow2(o as nat) as int;
        assert(l.len() * k == ls[o].len() * k + (l.len() - ls[o].len()) * k) by (nonlinear_arith);
    } else {
        assert(n.drop_last() =~= ls.drop_last().update(o, l));
        lemma_total_update(ls.drop_last(), o, l);
    }
}

/// A page of a listed block is free.
proof fn lemma_in_free(ls: Seq<Seq<u32>>, o: int, i: int, p: int)
    requires
        covers(ls, o, i, p),
    ensures
        in_free(ls, p),
{
}

/// Lists in order stay so with a block more, and its pages are then free.
pub proof fn lemma_with_block(ls: Seq<Seq<u32>>, lim: int, o: int, pos: int, b: u32)
    requires
        lists_ok(ls, lim),
        0 <= o < ls.len(),
        0 <= pos <= ls[o].len(),
        forall|i: int| 0 <= i < pos ==> ls[o][i] < b,
        forall|i: int| pos <= i < ls[o].len() ==> ls[o][i] > b,
        1 <= b,
        b + pow2(o as nat) <= lim,
        forall|p: int| b <= p < b + pow2(o as nat) ==> !in_free(ls, p),
    ensures
        lists_ok(with_block(ls, o, pos, b), lim),
        forall|p: int|
            #![trigger in_free(with_block(ls, o, pos, b), p)]
            #![trigger in_free(ls, p)]
            in_free(with_block(ls, o, pos, b), p) <==> in_free(ls, p) || b <= p < b + pow2(
                o as nat,
            ),
        total(with_block(ls, o, pos, b)) == total(ls) + pow2(o as nat),
        num_blocks(with_block(ls, o, pos, b)) == num_blocks(ls) + 1,
        forall|x: int|
            has_order(ls, x) || x <= o ==> #[trigger] has_order(with_block(ls, o, pos, b), x),
{
    let n = with_block(ls, o, pos, b);
    lemma_pow2_pos(o as nat);
    lemma_total_update(ls, o, ls[o].insert(pos, b));
    assert(1int * pow2(o as nat) == pow2(o as nat));
    assert(n[o] == ls[o].insert(pos, b));
    assert forall|a: int, i: int| #[trigger] listed(n, a, i) implies {
        ||| a == o && i == pos && n[a][i] == b
        ||| a == o && i < pos && listed(ls, a, i) && n[a][i] == ls[a][i]
        ||| a == o && i > pos && listed(ls, a, i - 1) && n[a][i] == ls[a][i - 1]
        ||| a != o && listed(ls, a, i) && n[a][i] == ls[a][i]
    } by {}
    assert forall|a: int, i: int| #[trigger] listed(ls, a, i) implies ({
        let k = if a == o && i >= pos {
            i + 1
        } else {
            i
        };
        listed(n, a, k) && n[a][k] == ls[a][i]
    }) by {}
    // a listed block and the new one have no page in common
    assert forall|a: int, i: int| #[trigger] listed(ls, a, i) implies (ls[a][i] + pow2(a as nat)
        <= b || b + pow2(o as nat) <= ls[a][i]) by {
        lemma_pow2_pos(a as nat);
        if ls[a][i] + pow2(a as nat) > b && b + pow2(o as nat) > ls[a][i] {
            let p: int = if ls[a][i] < b {
                b as int
            } else {
                ls[a][i] as int
            };
            lemma_in_free(ls, a, i, p);
        }
    }
    assert forall|p: int|
        in_free(n, p) <==> in_free(ls, p) || b <= p < b + pow2(o as nat) by {
        if in_free(n, p) {
            let (a, i) = choose|a: int, i: int| #[trigger] covers(n, a, i, p);
            assert(listed(n, a, i));
            if !(a == o && i == pos) {
                let k = if a == o && i > pos {
                    i - 1
                } else {
                    i
                };
                assert(covers(ls, a, k, p));
            }
        }
        if in_free(ls, p) {
            let (a, i) = choose|a: int, i: int| #[trigger] covers(ls, a, i, p);
            assert(listed(ls, a, i));
            let k = if a == o && i >= pos {
                i + 1
            } else {
                i
            };
            assert(covers(n, a, k, p));
        }
        if b <= p < b + pow2(o as nat) {
            assert(covers(n, o, pos, p));
        }
    }
    assert forall|x: int| has_order(ls, x) || x <= o implies has_order(n, x) by {
        if x <= o {
            assert(n[o].len() > 0);
        } else {
            let a = choose|a: int| x <= a < ls.len() && (#[trigger] ls[a]).len() > 0;
            assert(n[a].len() > 0);
        }
    }
    assert forall|a: int, i: int, j: int|
        #![trigger n[a][i], n[a][j]]
        0 <= a < n.len() && 0 <= i < j < n[a].len() implies n[a][i] < n[a][j] by {
        assert(listed(n, a, i) && listed(n, a, j));
        if a == o {
            let i2 = if i > pos {
                i - 1
            } else {
                i
            };
            let j2 = if j > pos {
                j - 1
            } else {
                j
            };
            if i == pos {
                assert(ls[o][j2] > b);
            } else if j == pos {
                assert(ls[o][i2] < b);
            } else {
                assert(ls[o][i2] < ls[o][j2]);
            }
        } else {
            assert(ls[a][i] < ls[a][j]);
        }
    }
    assert forall|a: int, i: int, a2: int, i2: int| #[trigger]
        listed(n, a, i) && #[trigger] listed(n, a2, i2) && (a != a2 || i != i2) implies apart(
        n,
        a,
        i,
        a2,
        i2,
    ) by {
        let k = if a == o && i > pos {
            i - 1
        } else {
            i
        };
        let k2 = if a2 == o && i2 > pos {
            i2 - 1
        } else {
            i2
        };
        if a == o && i == pos {
            assert(listed(ls, a2, k2));
        } else if a2 == o && i2 == pos {
            assert(listed(ls, a, k));
        } else {
            assert(listed(ls, a, k) && listed(ls, a2, k2));
            assert(apart(ls, a, k, a2, k2));
        }
    }
}

/// Lists in order stay so with a block less, and its pages are then not free.
pub proof fn lemma_without_block(ls: Seq<Seq<u32>>, lim: int, o: int, pos: int)
    requires
        lists_ok(ls, lim),
        listed(ls, o, pos),
    ensures
        lists_ok(without_block(ls, o, pos), lim),
        forall|p: int|
            #![trigger in_free(without_block(ls, o, pos), p)]
            #![trigger in_free(ls, p)]
            in_free(without_block(ls, o, pos), p) <==> in_free(ls, p) && !(ls[o][pos] <= p
                < ls[o][pos] + pow2(o as nat)),
        forall|p: int| ls[o][pos] <= p < ls[o][pos] + pow2(o as nat) ==> in_free(ls, p),
        total(without_block(ls, o, pos)) == total(ls) - pow2(o as nat),
        num_blocks(without_block(ls, o, pos)) == num_blocks(ls) - 1,
        forall|x: int|
            x > o && has_order(ls, x) ==> #[trigger] has_order(without_block(ls, o, pos), x),
{
    let n = without_block(ls, o, pos);
    let b = ls[o][pos];
    lemma_pow2_pos(o as nat);
    lemma_total_update(ls, o, ls[o].remove(pos));
    assert((-1int) * pow2(o as nat) == -(pow2(o as nat) as int));
    assert(n[o] == ls[o].remove(pos));
    assert forall|a: int, i: int| #[trigger] listed(n, a, i) implies ({
        let k = if a == o && i >= pos {
            i + 1
        } else {
            i
        };
        listed(ls, a, k) && n[a][i] == ls[a][k]
    }) by {}
    assert forall|p: int|
        in_free(n, p) <==> in_free(ls, p) && !(b <= p < b + pow2(o as nat)) by {
        if in_free(n, p) {
            let (a, i) = choose|a: int, i: int| #[trigger] covers(n, a, i, p);
            assert(listed(n, a, i));
            let k = if a == o && i >= pos {
                i + 1
            } else {
                i
            };
            assert(covers(ls, a, k, p));
            assert(listed(ls, o, pos) && listed(ls, a, k));
            assert(apart(ls, a, k, o, pos));
        }
        if in_free(ls, p) && !(b <= p < b + pow2(o as nat)) {
            let (a, i) = choose|a: int, i: int| #[trigger] covers(ls, a, i, p);
            let k = if a == o && i > pos {
                i - 1
            } else {
                i
            };
            assert(!(a == o && i == pos));
            assert(n[a][k] == ls[a][i]);
            assert(covers(n, a, k, p));
        }
    }
    assert forall|p: int| b <= p < b + pow2(o as nat) implies in_free(ls, p) by {
        assert(covers(ls, o, pos, p));
    }
    assert forall|x: int| x > o && has_order(ls, x) implies has_order(n, x) by {
        let a = choose|a: int| x <= a < ls.len() && (#[trigger] ls[a]).len() > 0;
        assert(n[a].len() > 0);
    }
    assert forall|a: int, i: int, j: int|
        #![trigger n[a][i], n[a][j]]
        0 <= a < n.len() && 0 <= i < j < n[a].len() implies n[a][i] < n[a][j] by {
        assert(listed(n, a, i) && listed(n, a, j));
        let i2 = if a == o && i >= pos {
            i + 1
        } else {
            i
        };
        let j2 = if a == o && j >= pos {
            j + 1
        } else {
            j
        };
        assert(ls[a][i2] < ls[a][j2]);
    }
    assert forall|a: int, i: int, a2: int, i2: int| #[trigger]
        listed(n, a, i) && #[trigger] listed(n, a2, i2) && (a != a2 || i != i2) implies apart(
        n,
        a,
        i,
        a2,
        i2,
    ) by {
        let k = if a == o && i >= pos {
            i + 1
        } else {
            i
        };
        let k2 = if a2 == o && i2 >= pos {
            i2 + 1
        } else {
            i2
        };
        assert(listed(ls, a, k) && listed(ls, a2, k2));
        assert(apart(ls, a, k, a2, k2));
    }
}

/// Two neighbouring blocks of order `o`, the one at `item` in hand and the other,
/// at `b`, taken out of `ls`, are one block of the next order at `start`.
proof fn lemma_joined(ls: Seq<Seq<u32>>, n: Seq<Seq<u32>>, item: u32, b: u32, start: u32, o: nat)
    requires
        forall|p: int| item <= p < item + pow2(o) ==> !in_free(ls, p),
        start == item && b == item + pow2(o) || start == b && b + pow2(o) == item,
        forall|p: int| #[trigger]
            in_free(n, p) <==> in_free(ls, p) && !(b <= p < b + pow2(o)),
        forall|p: int| b <= p < b + pow2(o) ==> #[trigger] in_free(ls, p),
    ensures
        forall|p: int| start <= p < start + pow2(o + 1) ==> !in_free(n, p),
        forall|p: int|
            #![trigger in_free(n, p)]
            #![trigger in_free(ls, p)]
            in_free(n, p) || start <= p < start + pow2(o + 1) <==> in_free(ls, p) || item <= p
                < item + pow2(o),
{
    lemma_pow2_unfold(o + 1);
    assert forall|p: int| start <= p < start + pow2(o + 1) implies !in_free(n, p) by {
        if in_free(n, p) {
            assert(in_free(ls, p));
        }
    }
    assert forall|p: int|
        in_free(n, p) || start <= p < start + pow2(o + 1) <==> in_free(ls, p) || item <= p < item
            + pow2(o) by {
        assert(in_free(n, p) ==> in_free(ls, p));
    }
}

/// A piece that is left of a block, behind a page that is not free, leaves lists neat.
proof fn lemma_carved_neat(
    ls: Seq<Seq<u32>>,
    end: int,
    taken: int,
    k: nat,
    s: int,
    o: int,
    pos: int,
    rest: u32,
)
    requires
        neat(ls),
        0 <= o < ls.len(),
        0 <= pos <= ls[o].len(),
        end % pow2(k) as int == 0,
        s % 2 == 1,
        s >= 1,
        s * pow2(o as nat) < pow2(k),
        rest + s * pow2(o as nat) == end,
        !in_free(ls, taken),
        taken < rest <= taken + pow2(o as nat),
    ensures
        neat(with_block(ls, o, pos, rest)),
{
    if k <= o {
        lemma_pow2_le(k, o as nat);
        assert(s * pow2(o as nat) >= pow2(o as nat)) by (nonlinear_arith)
            requires
                s >= 1,
        ;
    }
    lemma_piece(end, k, s, o, rest as int);
    let c = buddy(rest as int, o);
    if among(ls[o], c) {
        let i = choose|i: int| 0 <= i < ls[o].len() && #[trigger] ls[o][i] == c;
        assert(listed(ls, o, i));
        assert(covers(ls, o, i, taken));
    }
    lemma_neat_with(ls, o, pos, rest);
}

/// The lists of free pages, and how many pages may be taken from them.
#[derive(Debug)]
pub struct RmdbFreePages {
    pub lists: Vec<Vec<u32>>,
    pub free: u32,
}

/// Searches a sorted list: the place of `x`, or else the place where it would go.
fn search(v: &Vec<u32>, x: u32) -> (r: Result<usize, usize>)
    requires
        forall|i: int, j: int| 0 <= i < j < v.len() ==> v[i] < v[j],
    ensures
        match r {
            Ok(pos) => pos < v.len() && v[pos as int] == x,
            Err(pos) => {
                &&& pos <= v.len()
                &&& forall|i: int| 0 <= i < pos ==> v[i] < x
                &&& forall|i: int| pos <= i < v.len() ==> v[i] > x
            },
        },
{
    let mut lo: usize = 0;
    let mut hi: usize = v.len();
    while lo < hi
        invariant
            lo <= hi <= v.len(),
            forall|i: int, j: int| 0 <= i < j < v.len() ==> v[i] < v[j],
            forall|i: int| 0 <= i < lo ==> v[i] < x,
            forall|i: int| hi <= i < v.len() ==> v[i] > x,
        decreases hi - lo,
    {
        let mid: usize = lo + (hi - lo) / 2;
        if v[mid] == x {
            return Ok(mid);
        }
        if v[mid] < x {
            lo = mid + 1;
        } else {
            hi = mid;
        }
    }
    Err(lo)
}

impl RmdbFreePages {
    /// The lists as mathematical sequences.
    pub open spec fn ls(self) -> Seq<Seq<u32>> {
        self.lists@.map_values(|v: Vec<u32>| v@)
    }

    /// Gives back the block of order `order` at `page`. As long as its buddy of the same
    /// order is free too, the two become one block of the next order. A block that is
    /// listed already is refused.
    pub(crate) fn put_page_consolidate(&mut self, page: u32, order: usize, Ghost(lim): Ghost<int>) -> (r:
        Result<(), RmdbError>)
        requires
            lists_ok(old(self).ls(), lim),
            lim <= u32::MAX,
            order <= RMDB_MAXORDER,
            1 <= page,
            page + pow2(order as nat) <= lim,
        ensures
            final(self).free == old(self).free,
            match r {
                Ok(_) => {
                    &&& !refused(old(self).ls(), page as int, order as int)
                    &&& final(self).ls() == consolidated(old(self).ls(), page as int, order as int)
                },
                Err(e) => {
                    &&& e is InvalidIndexSize
                    &&& refused(old(self).ls(), page as int, order as int)
                    &&& final(self).ls() == merged(old(self).ls(), page as int, order as int).0
                },
            },
            not_free(old(self).ls(), page as int, order as int) ==> {
                &&& r is Ok
                &&& lists_ok(final(self).ls(), lim)
                &&& forall|p: int|
                    #![trigger in_free(final(self).ls(), p)]
                    #![trigger in_free(old(self).ls(), p)]
                    in_free(final(self).ls(), p) <==> in_free(old(self).ls(), p) || page <= p < page
                        + pow2(order as nat)
                &&& total(final(self).ls()) == total(old(self).ls()) + pow2(order as nat)
                &&& num_blocks(final(self).ls()) <= num_blocks(old(self).ls()) + 1
                &&& neat(old(self).ls()) && page as int % pow2(order as nat) as int == 0 ==> neat(
                    final(self).ls(),
                )
                &&& forall|x: int|
                    has_order(old(self).ls(), x) || x <= order ==> #[trigger] has_order(
                        final(self).ls(),
                        x,
                    )
            },
    {
        let ghost ls0 = self.ls();
        let ghost clear = not_free(ls0, page as int, order as int);
        let ghost tidy = neat(ls0) && page as int % pow2(order as nat) as int == 0;
        let mut item: u32 = page;
        let mut o: usize = order;
        while o < RMDB_MAXORDER
            invariant
                lists_ok(self.ls(), lim),
                lim <= u32::MAX,
                order <= o <= RMDB_MAXORDER,
                1 <= item,
                item + pow2(o as nat) <= lim,
                merged(self.ls(), item as int, o as int) == merged(ls0, page as int, order as int),
                self.free == old(self).free,
                ls0 == old(self).ls(),
                clear == not_free(ls0, page as int, order as int),
                tidy == (neat(ls0) && page as int % pow2(order as nat) as int == 0),
                tidy ==> neat(self.ls()) && item as int % pow2(o as nat) as int == 0,
                clear ==> {
                    &&& not_free(self.ls(), item as int, o as int)
                    &&& forall|p: int|
                        #![trigger in_free(self.ls(), p)]
                        #![trigger in_free(ls0, p)]
                        in_free(self.ls(), p) || item <= p < item + pow2(o as nat) <==> in_free(
                            ls0,
                            p,
                        ) || page <= p < page + pow2(order as nat)
                    &&& total(self.ls()) + pow2(o as nat) == total(ls0) + pow2(order as nat)
                    &&& num_blocks(self.ls()) <= num_blocks(ls0)
                    &&& forall|x: int| #[trigger]
                        has_order(ls0, x) ==> x <= o || has_order(self.ls(), x)
                },
            decreases RMDB_MAXORDER - o,
        {
            let ghost ls = self.ls();
            assert(ls[o as int] == self.lists[o as int]@);
            match search(&self.lists[o], item) {
                Ok(pos) => {
                    proof {
                        lemma_pow2_pos(o as nat);
                        lemma_in_free(ls, o as int, pos as int, item as int);
                        assert(ls[o as int][pos as int] == item);
                    }
                    return Err(RmdbError::InvalidIndexSize);
                },
                Err(pos) => {
                    let size: u32 = 1u32 << (o as u32);
                    let parity: u32 = size << 1u32;
                    proof {
                        lemma_order(o as u32);
                        lemma_pow2_unfold((o + 1) as nat);
                        lemma_pow2_pos(o as nat);
                        lemma_buddy_at(ls, lim, item, o as int, pos as int);
                        if tidy {
                            lemma_buddy(item as int, o as int);
                        }
                    }
                    if item % parity == 0 {
                        if self.lists[o].len() > pos {
                            assert(listed(ls, o as int, pos as int));
                            if self.lists[o][pos] == item + size {
                                proof {
                                    lemma_without_block(ls, lim, o as int, pos as int);
                                    if tidy {
                                        lemma_neat_without(ls, o as int, pos as int);
                                    }
                                    assert(ls[o as int][pos as int] == item + pow2(o as nat));
                                }
                                self.lists[o].remove(pos);
                                assert(self.ls() =~= without_block(ls, o as int, pos as int));
                                proof {
                                    if clear {
                                        lemma_joined(ls, self.ls(), item, (item + size) as u32, item, o as nat);
                                    }
                                }
                                o = o + 1;
                                continue;
                            }
                        }
                    } else {
                        if pos > 0 {
                            assert(listed(ls, o as int, pos - 1));
                            if self.lists[o][pos - 1] + size == item {
                                proof {
                                    lemma_without_block(ls, lim, o as int, pos - 1);
                                    if tidy {
                                        lemma_neat_without(ls, o as int, pos - 1);
                                    }
                                    assert(ls[o as int][pos - 1] + pow2(o as nat) == item);
                                }
                                let ghost upper = item;
                                item = self.lists[o].remove(pos - 1);
                                assert(self.ls() =~= without_block(ls, o as int, pos - 1));
                                proof {
                                    if clear {
                                        lemma_joined(ls, self.ls(), upper, item, item, o as nat);
                                    }
                                }
                                o = o + 1;
                                continue;
                            }
                        }
                    }
                    proof {
                        lemma_place(ls[o as int], item as int, pos as int);
                        if clear {
                            lemma_with_block(ls, lim, o as int, pos as int, item);
                        }
                        if tidy {
                            lemma_neat_with(ls, o as int, pos as int, item);
                        }
                    }
                    self.lists[o].insert(pos, item);
                    assert(self.ls() =~= with_block(ls, o as int, pos as int, item));
                    assert forall|x: int| clear && (has_order(ls0, x) || x <= order) implies has_order(
                        self.ls(),
                        x,
                    ) by {
                        assert(x <= o || has_order(ls, x));
                    }
                    return Ok(());
                },
            }
        }
        let ghost ls = self.ls();
        assert(ls[o as int] == self.lists[o as int]@);
        match search(&self.lists[o], item) {
            Ok(pos) => {
                proof {
                    lemma_pow2_pos(o as nat);
                    lemma_in_free(ls, o as int, pos as int, item as int);
                    assert(ls[o as int][pos as int] == item);
                }
                return Err(RmdbError::InvalidIndexSize);
            },
            Err(pos) => {
                proof {
                    lemma_place(ls[o as int], item as int, pos as int);
                    if clear {
                        lemma_with_block(ls, lim, o as int, pos as int, item);
                    }
                    if tidy {
                        lemma_neat_with(ls, o as int, pos as int, item);
                    }
                }
                self.lists[o].insert(pos, item);
                assert(self.ls() =~= with_block(ls, o as int, pos as int, item));
                assert forall|x: int| clear && (has_order(ls0, x) || x <= order) implies has_order(
                    self.ls(),
                    x,
                ) by {
                    assert(x <= o || has_order(ls, x));
                }
            },
        };
        Ok(())
    }
}

/// Where the buddy of a block stands, if it is listed: next to the place of the block,
/// which is not.
proof fn lemma_buddy_at(ls: Seq<Seq<u32>>, lim: int, item: u32, o: int, pos: int)
    requires
        lists_ok(ls, lim),
        0 <= o < RMDB_MAXORDER,
        1 <= item,
        0 <= pos <= ls[o].len(),
        forall|i: int| 0 <= i < pos ==> ls[o][i] < item,
        forall|i: int| pos <= i < ls[o].len() ==> ls[o][i] > item,
    ensures
        !among(ls[o], item as int),
        item as int % pow2((o + 1) as nat) as int == 0 ==> {
            &&& among(ls[o], buddy(item as int, o)) <==> pos < ls[o].len() && ls[o][pos] == item
                + pow2(o as nat)
            &&& among(ls[o], buddy(item as int, o)) ==> place(ls[o], buddy(item as int, o)) == pos
        },
        item as int % pow2((o + 1) as nat) as int != 0 ==> {
            &&& among(ls[o], buddy(item as int, o)) <==> pos > 0 && ls[o][pos - 1] == item - pow2(
                o as nat,
            )
            &&& among(ls[o], buddy(item as int, o)) ==> place(ls[o], buddy(item as int, o)) == pos
                - 1
        },
{
    let v = ls[o];
    let c = buddy(item as int, o);
    lemma_pow2_pos(o as nat);
    if item as int % pow2((o + 1) as nat) as int == 0 {
        if among(v, c) {
            let i = choose|i: int| 0 <= i < v.len() && #[trigger] v[i] == c;
            assert(i >= pos);
            if i > pos {
                assert(listed(ls, o, i) && listed(ls, o, pos));
                assert(v[pos] < v[i]);
                assert(apart(ls, o, pos, o, i));
            }
            assert forall|k: int| 0 <= k < pos implies v[k] < c by {}
            lemma_place(v, c, pos);
        }
    } else {
        if among(v, c) {
            let i = choose|i: int| 0 <= i < v.len() && #[trigger] v[i] == c;
            assert(i < pos);
            if i < pos - 1 {
                assert(listed(ls, o, i) && listed(ls, o, pos - 1));
                assert(v[i] < v[pos - 1]);
                assert(apart(ls, o, i, o, pos - 1));
            }
            assert forall|k: int| 0 <= k < pos - 1 implies v[k] < c by {
                assert(v[k] < v[pos - 1]);
            }
            lemma_place(v, c, pos - 1);
        }
    }
}

/// A shift gives the size of an order, and one more shift that of the next.
proof fn lemma_order(o: u32)
    requires
        o <= 31,
    ensures
        1u32 << o == pow2(o as nat),
        o < 31 ==> (1u32 << o) << 1u32 == pow2((o + 1) as nat),
{
    vstd::arithmetic::power2::lemma2_to64();
    vstd::bits::lemma_u32_pow2_no_overflow(o as nat);
    vstd::bits::lemma_u32_shl_is_mul(1, o);
    if o < 31 {
        lemma_pow2_unfold((o + 1) as nat);
        vstd::bits::lemma_u32_pow2_no_overflow((o + 1) as nat);
        vstd::bits::lemma_u32_shl_is_mul(1u32 << o, 1);
    }
}

/// Whether `o` is the order of the smallest block that holds `n` pages.
pub open spec fn is_order(n: int, o: int) -> bool {
    &&& 0 <= o
    &&& n <= pow2(o as nat)
    &&& forall|k: nat| k < o ==> #[trigger] pow2(k) < n
}

/// Only one order is the order of `n` pages.
pub proof fn lemma_one_order(n: int, a: int, b: int)
    requires
        is_order(n, a),
        is_order(n, b),
    ensures
        a == b,
{
    if a < b {
        assert(pow2(a as nat) < n);
    } else if b < a {
        assert(pow2(b as nat) < n);
    }
}

/// The order of the smallest block that holds `n` pages.
pub open spec fn order_of(n: int) -> int {
    choose|o: int| is_order(n, o)
}

/// There is one.
pub proof fn lemma_order_exists(n: int)
    ensures
        is_order(n, order_of(n)),
    decreases n,
{
    lemma_pow2_pos(0);
    vstd::arithmetic::power2::lemma2_to64();
    if n <= 1 {
        assert(is_order(n, 0));
    } else {
        lemma_order_exists(n - 1);
        let o = order_of(n - 1);
        lemma_pow2_unfold((o + 1) as nat);
        lemma_pow2_pos(o as nat);
        if n <= pow2(o as nat) {
            assert(is_order(n, o));
        } else {
            assert forall|k: nat| k < o + 1 implies #[trigger] pow2(k) < n by {
                lemma_pow2_le(k, o as nat);
            }
            assert(is_order(n, o + 1));
        }
    }
}

/// There is no other.
pub proof fn lemma_order_of(n: int, o: int)
    requires
        is_order(n, o),
    ensures
        order_of(n) == o,
{
    lemma_one_order(n, o, order_of(n));
}

/// The order of the smallest block that holds `n` pages. For more than half of what
/// `usize` can count there is none.
pub fn size_to_order(n: usize) -> (r: usize)
    requires
        n <= usize::MAX / 2 + 1,
    ensures
        is_order(n as int, r as int),
        r < usize::BITS,
        n <= pow2(r as nat),
        r > 0 ==> pow2((r - 1) as nat) < n,
        n <= 1 ==> r == 0,
{
    let mut o: usize = 0;
    let mut s: usize = 1;
    proof {
        vstd::arithmetic::power2::lemma2_to64();
        vstd::arithmetic::power2::lemma2_to64_rest();
    }
    while n > s
        invariant
            n <= usize::MAX / 2 + 1,
            s == pow2(o as nat),
            forall|k: nat| k < o ==> #[trigger] pow2(k) < n,
            o < usize::BITS,
        decreases usize::BITS - o,
    {
        proof {
            lemma_pow2_unfold((o + 1) as nat);
            vstd::arithmetic::power2::lemma2_to64();
            vstd::arithmetic::power2::lemma2_to64_rest();
            vstd::bits::lemma_usize_shl_is_mul(s, 1);
            assert(pow2((o + 1) as nat) == 2 * s);
            if o + 1 >= usize::BITS {
                assert(o + 1 == usize::BITS);
                assert(false);
            }
        }
        o = o + 1;
        s = s << 1;
    }
    proof {
        if o > 0 {
            assert(pow2((o - 1) as nat) < n);
            lemma_pow2_pos((o - 1) as nat);
        }
    }
    o
}

/// How many pages a block of order `o` holds.
pub fn order_to_size(o: usize) -> (r: usize)
    requires
        o < usize::BITS,
    ensures
        r == pow2(o as nat),
{
    proof {
        vstd::bits::lemma_usize_pow2_no_overflow(o as nat);
        vstd::bits::lemma_usize_shl_is_mul(1, o);
    }
    1usize << o
}

/// Powers of two grow with the exponent.
pub proof fn lemma_pow2_le(a: nat, b: nat)
    requires
        a <= b,
    ensures
        0 < pow2(a) <= pow2(b),
{
    lemma_pow2_pos(a);
    if a < b {
        lemma_pow2_strictly_increases(a, b);
    }
}

/// Whether `p` is one of the pages `s`.
pub open spec fn among(s: Seq<u32>, p: int) -> bool {
    exists|i: int| 0 <= i < s.len() && #[trigger] s[i] == p
}

/// The pages from `from` on, `count` of them.
pub open spec fn run_of(from: u32, count: int) -> Seq<u32> {
    Seq::new(count as nat, |i: int| (from + i) as u32)
}

impl RmdbFreePages {
    /// Takes pages from the front of the block of `size` pages at `block`, which is in
    /// no list: all of them, or the `n` that are still wanted. What is left of the
    /// block is listed again, in blocks of ascending order.
    pub(crate) fn get_pages_from_block(
        &mut self,
        block: u32,
        size: usize,
        n: &mut usize,
        res: &mut Vec<u32>,
        Ghost(lim): Ghost<int>,
    ) -> (r: Result<(), RmdbError>)
        requires
            lists_ok(old(self).ls(), lim),
            lim <= u32::MAX,
            1 <= block,
            1 <= size <= 0x8000_0000,
            1 <= *old(n),
            block + size <= lim,
            forall|p: int| block <= p < block + size ==> !in_free(old(self).ls(), p),
            *old(n) <= old(self).free || size <= old(self).free,
        ensures
            r is Ok,
            ({
                let t: int = if *old(n) < size {
                    *old(n) as int
                } else {
                    size as int
                };
                &&& *final(n) == *old(n) - t
                &&& final(res)@ == old(res)@ + run_of(block, t)
                &&& final(self).ls() == carved(old(self).ls(), block + t, size - t, 0)
                &&& lists_ok(final(self).ls(), lim)
                &&& forall|p: int|
                    #![trigger in_free(final(self).ls(), p)]
                    #![trigger in_free(old(self).ls(), p)]
                    in_free(final(self).ls(), p) <==> in_free(old(self).ls(), p) || block + t <= p
                        < block + size
                &&& total(final(self).ls()) == total(old(self).ls()) + size - t
                &&& num_blocks(final(self).ls()) <= num_blocks(old(self).ls()) + RMDB_MAXORDER
                &&& final(self).free == old(self).free - t
            }),
            forall|k: nat| #[trigger]
                pow2(k) == size && neat(old(self).ls()) && block as int % pow2(k) as int == 0
                    ==> neat(final(self).ls()),
    {
        let ghost ls0 = self.ls();
        let ghost k = choose|k: nat| #[trigger] pow2(k) == size;
        let ghost tidy = pow2(k) == size && neat(ls0) && block as int % pow2(k) as int == 0;
        let mut t: usize = size;
        if *n < t {
            t = *n;
        }
        let mut i: usize = 0;
        while i < t
            invariant
                i <= t <= size,
                block + size <= lim,
                lim <= u32::MAX,
                res@ == old(res)@ + run_of(block, i as int),
            decreases t - i,
        {
            res.push(block + i as u32);
            i = i + 1;
            assert(res@ =~= old(res)@ + run_of(block, i as int));
        }
        assert(res@ =~= old(res)@ + run_of(block, t as int));
        *n = *n - t;
        if t < size {
            let mut rest: u32 = block + t as u32;
            let mut s: usize = size - t;
            let mut o: usize = 0;
            proof {
                vstd::arithmetic::power2::lemma2_to64();
                assert(pow2(0) == 1);
                assert(s * 1 == s);
            }
            while s > 0
                invariant
                    lists_ok(self.ls(), lim),
                    lim <= u32::MAX,
                    t < size <= 0x8000_0000,
                    1 <= block,
                    block + size <= lim,
                    o <= RMDB_MAXORDER,
                    block + t <= rest,
                    rest + s * pow2(o as nat) == block + size,
                    s * pow2(o as nat) < 0x8000_0000,
                    forall|p: int| rest <= p < block + size ==> !in_free(self.ls(), p),
                    forall|p: int|
                        #![trigger in_free(self.ls(), p)]
                        #![trigger in_free(ls0, p)]
                        in_free(self.ls(), p) <==> in_free(ls0, p) || block + t <= p < rest,
                    total(self.ls()) == total(ls0) + rest - block - t,
                    num_blocks(self.ls()) <= num_blocks(ls0) + o,
                    1 <= t,
                    forall|p: int| block <= p < block + size ==> !in_free(ls0, p),
                    rest - (block + t) < pow2(o as nat),
                    tidy ==> pow2(k) == size && block as int % pow2(k) as int == 0 && neat(self.ls()),
                    carved(self.ls(), rest as int, s as int, o as int) == carved(
                        ls0,
                        block + t,
                        size - t,
                        0,
                    ),
                    self.free == old(self).free,
                decreases s,
            {
                let ghost ls = self.ls();
                let ghost half: int = (s / 2) as int;
                proof {
                    vstd::arithmetic::power2::lemma2_to64();
                    lemma_pow2_pos(o as nat);
                    lemma_pow2_unfold((o + 1) as nat);
                    assert(s & 1 == s % 2) by (bit_vector);
                    assert(s >> 1 == s / 2) by (bit_vector);
                    let k: int = pow2(o as nat) as int;
                    assert(s * k == half * (2 * k) + (s % 2) * k) by (nonlinear_arith)
                        requires
                            s == 2 * half + s % 2,
                    ;
                    assert(s * k >= k) by (nonlinear_arith)
                        requires
                            s >= 1,
                            k >= 0,
                    ;
                    if o == 31 {
                        assert(false);
                    }
                    assert(half * (2 * k) >= 0) by (nonlinear_arith)
                        requires
                            half >= 0,
                            k >= 0,
                    ;
                }
                if s & 1 == 1 {
                    assert(ls[o as int] == self.lists[o as int]@);
                    match search(&self.lists[o], rest) {
                        Ok(_pos) => {
                            proof {
                                lemma_in_free(ls, o as int, _pos as int, rest as int);
                            }
                            return Err(RmdbError::InvalidIndexSize);
                        },
                        Err(pos) => {
                            proof {
                                lemma_with_block(ls, lim, o as int, pos as int, rest);
                                lemma_place(ls[o as int], rest as int, pos as int);
                                if tidy {
                                    vstd::arithmetic::div_mod::lemma_mod_add_multiples_vanish(
                                        block as int,
                                        size as int,
                                    );
                                    lemma_carved_neat(
                                        ls,
                                        block + size,
                                        block + t - 1,
                                        k,
                                        s as int,
                                        o as int,
                                        pos as int,
                                        rest,
                                    );
                                }
                            }
                            self.lists[o].insert(pos, rest);
                            assert(self.ls() =~= with_block(ls, o as int, pos as int, rest));
                        },
                    };
                    proof {
                        vstd::bits::lemma_usize_pow2_no_overflow(o as nat);
                    }
                    rest = rest + order_to_size(o) as u32;
                }
                s = s >> 1;
                o = o + 1;
                if o > RMDB_MAXORDER {
                    return Err(RmdbError::InvalidIndexSize);
                }
            }
        }
        self.free = self.free - t as u32;
        Ok(())
    }

    /// Gives back the pages of `pvec`: an even page and its successor as one block, any
    /// other page alone.
    pub(crate) fn put_free_pages(&mut self, pvec: &Vec<u32>, Ghost(lim): Ghost<int>) -> (r: Result<
        (),
        RmdbError,
    >)
        requires
            lists_ok(old(self).ls(), lim),
            lim <= u32::MAX,
            old(self).free <= total(old(self).ls()),
            pvec@.no_duplicates(),
            forall|i: int|
                0 <= i < pvec.len() ==> 1 <= #[trigger] pvec[i] < lim && !in_free(
                    old(self).ls(),
                    pvec[i] as int,
                ),
        ensures
            r is Ok,
            exists|s: Seq<u32>| #[trigger]
                sorts(s, pvec@) && final(self).ls() == returned(old(self).ls(), s),
            lists_ok(final(self).ls(), lim),
            forall|p: int|
                #![trigger in_free(final(self).ls(), p)]
                #![trigger in_free(old(self).ls(), p)]
                in_free(final(self).ls(), p) <==> in_free(old(self).ls(), p) || among(pvec@, p),
            total(final(self).ls()) == total(old(self).ls()) + pvec.len(),
            num_blocks(final(self).ls()) <= num_blocks(old(self).ls()) + pvec.len(),
            final(self).free == old(self).free + pvec.len(),
            neat(old(self).ls()) ==> neat(final(self).ls()),
    {
        let ghost ls0 = self.ls();
        let sorted: Vec<u32> = ascending(pvec);
        let mut i: usize = 0;
        proof {
            vstd::arithmetic::power2::lemma2_to64();
            assert forall|k: int| 0 <= k < sorted.len() implies 1 <= #[trigger] sorted[k] < lim
                && !in_free(ls0, sorted[k] as int) by {
                assert(among(sorted@, sorted[k] as int));
                assert(among(pvec@, sorted[k] as int));
            }
            assert(sorted@.skip(0) =~= sorted@);
        }
        while i < sorted.len()
            invariant
                i <= sorted.len(),
                lists_ok(self.ls(), lim),
                lim <= u32::MAX,
                pow2(0) == 1,
                pow2(1) == 2,
                forall|k: int, j: int| 0 <= k < j < sorted.len() ==> sorted[k] < sorted[j],
                forall|k: int|
                    0 <= k < sorted.len() ==> 1 <= #[trigger] sorted[k] < lim && !in_free(
                        ls0,
                        sorted[k] as int,
                    ),
                forall|p: int|
                    #![trigger in_free(self.ls(), p)]
                    #![trigger in_free(ls0, p)]
                    in_free(self.ls(), p) <==> in_free(ls0, p) || among(sorted@.take(i as int), p),
                returned(self.ls(), sorted@.skip(i as int)) == returned(ls0, sorted@),
                total(self.ls()) == total(ls0) + i,
                sorted.len() == pvec.len(),
                num_blocks(self.ls()) <= num_blocks(ls0) + i,
                self.free == old(self).free,
                ls0 == old(self).ls(),
                neat(ls0) ==> neat(self.ls()),
            decreases sorted.len() - i,
        {
            let page: u32 = sorted[i];
            let ghost seen = sorted@.take(i as int);
            let ghost left = sorted@.skip(i as int);
            assert(sorted@.take(i + 1) =~= seen.push(page));
            assert(left[0] == page);
            assert(left.skip(1) =~= sorted@.skip(i + 1));
            assert forall|k: int| i <= k < sorted.len() implies !in_free(
                self.ls(),
                #[trigger] sorted[k] as int,
            ) by {
                if among(seen, sorted[k] as int) {
                    let j = choose|j: int| 0 <= j < seen.len() && #[trigger] seen[j] == sorted[k];
                    assert(sorted[j] < sorted[k]);
                }
            }
            proof {
                lemma_among_push(seen, page);
            }
            if page % 2 == 0 && sorted.len() - i > 1 && sorted[i + 1] - 1 == page {
                let ghost next = sorted[i + 1];
                assert(sorted@.take(i + 2) =~= seen.push(page).push(next));
                assert(left[1] == next);
                assert(left.skip(2) =~= sorted@.skip(i + 2));
                proof {
                    lemma_among_push(seen.push(page), next);
                }
                self.put_page_consolidate(page, 1, Ghost(lim))?;
                i = i + 2;
            } else {
                assert(left.len() > 1 ==> left[1] == sorted[i + 1]);
                self.put_page_consolidate(page, 0, Ghost(lim))?;
                i = i + 1;
            }
        }
        proof {
            assert(sorted@.take(i as int) =~= sorted@);
            assert(sorts(sorted@, pvec@));
            if lim >= 1 {
                lemma_total_bound(self.ls(), lim);
            } else {
                assert(sorted.len() == 0) by {
                    if sorted.len() > 0 {
                        assert(sorted[0] < lim);
                    }
                }
            }
            assert forall|p: int| in_free(self.ls(), p) <==> in_free(ls0, p) || among(pvec@, p) by {
                assert(among(sorted@, p) <==> among(pvec@, p));
            }
        }
        self.free = self.free + pvec.len() as u32;
        Ok(())
    }

    /// Lists the `count` pages from `first` on, in blocks of descending order.
    pub(crate) fn put_range(&mut self, first: u32, count: u32, Ghost(lim): Ghost<int>) -> (r: Result<
        (),
        RmdbError,
    >)
        requires
            lists_ok(old(self).ls(), lim),
            lim <= u32::MAX,
            1 <= first,
            first + count <= lim,
            count <= usize::MAX / 2 + 1,
            forall|p: int| first <= p < first + count ==> !in_free(old(self).ls(), p),
        ensures
            r is Ok,
            lists_ok(final(self).ls(), lim),
            forall|p: int|
                #![trigger in_free(final(self).ls(), p)]
                #![trigger in_free(old(self).ls(), p)]
                in_free(final(self).ls(), p) <==> in_free(old(self).ls(), p) || first <= p < first
                    + count,
            final(self).ls() == spread(
                old(self).ls(),
                first as int,
                count as int,
                order_of(count as int),
            ),
            neat(old(self).ls()) && first as int % pow2(order_of(count as int) as nat) as int == 0
                ==> neat(final(self).ls()),
            total(final(self).ls()) == total(old(self).ls()) + count,
            num_blocks(final(self).ls()) <= num_blocks(old(self).ls()) + 33,
            final(self).free == old(self).free,
            forall|k: nat| #[trigger]
                pow2(k) <= count && k <= RMDB_MAXORDER ==> has_order(final(self).ls(), k as int),
    {
        let ghost ls0 = self.ls();
        let ghost tidy = neat(ls0) && first as int % pow2(order_of(count as int) as nat) as int == 0;
        let mut pnum: u32 = first;
        let mut s: usize = count as usize;
        let mut o: usize = size_to_order(s);
        proof {
            lemma_order_of(count as int, o as int);
            lemma_pow2_unfold((o + 1) as nat);
            lemma_pow2_pos(o as nat);
            vstd::arithmetic::power2::lemma2_to64();
            if o > 32 {
                lemma_pow2_le(32, (o - 1) as nat);
            }
        }
        while s > 0
            invariant
                lists_ok(self.ls(), lim),
                lim <= u32::MAX,
                1 <= first <= pnum,
                first + count <= lim,
                pnum + s == first + count,
                o < usize::BITS,
                s < pow2((o + 1) as nat),
                forall|p: int| pnum <= p < first + count ==> !in_free(self.ls(), p),
                forall|p: int|
                    #![trigger in_free(self.ls(), p)]
                    #![trigger in_free(ls0, p)]
                    in_free(self.ls(), p) <==> in_free(ls0, p) || first <= p < pnum,
                total(self.ls()) + s == total(ls0) + count,
                spread(self.ls(), pnum as int, s as int, o as int) == spread(
                    ls0,
                    first as int,
                    count as int,
                    order_of(count as int),
                ),
                o <= 32,
                tidy ==> neat(self.ls()) && pnum as int % pow2(o as nat) as int == 0,
                num_blocks(self.ls()) + o <= num_blocks(ls0) + 32 || (s == 0 && num_blocks(self.ls())
                    <= num_blocks(ls0) + 33),
                self.free == old(self).free,
                s == count || forall|k: nat| #[trigger]
                    pow2(k) <= count && k <= RMDB_MAXORDER ==> has_order(self.ls(), k as int),
            decreases o, s,
        {
            let t: usize = order_to_size(o);
            proof {
                lemma_pow2_unfold((o + 1) as nat);
                vstd::arithmetic::power2::lemma2_to64();
                if o > 31 {
                    lemma_pow2_le(32, o as nat);
                }
            }
            let ghost s0 = s;
            let ghost p0 = pnum;
            let ghost ls1 = self.ls();
            proof {
                reveal_with_fuel(spread, 2);
            }
            if t <= s {
                self.put_page_consolidate(pnum, o, Ghost(lim))?;
                pnum = pnum + t as u32;
                s = s - t;
                assert forall|k: nat| #[trigger] pow2(k) <= count && k <= RMDB_MAXORDER implies has_order(
                    self.ls(),
                    k as int,
                ) by {
                    if s0 == count {
                        if k > o {
                            lemma_pow2_le((o + 1) as nat, k);
                        }
                    } else {
                        assert(has_order(ls1, k as int));
                    }
                }
            }
            assert(pow2(1) == 2);
            if o > 0 {
                proof {
                    lemma_pow2_unfold(o as nat);
                    if tidy {
                        lemma_half_step(p0 as int, pnum as int, o as int);
                    }
                }
                o = o - 1;
            }
        }
        proof {
            if count == 0 {
                assert forall|k: nat| #[trigger] pow2(k) <= count implies false by {
                    lemma_pow2_pos(k);
                }
            }
        }
        Ok(())
    }
}

/// A multiple of a size, or the next, is a multiple of half the size.
proof fn lemma_half_step(a: int, b: int, o: int)
    requires
        o > 0,
        a % pow2(o as nat) as int == 0,
        b == a || b == a + pow2(o as nat),
    ensures
        b % pow2((o - 1) as nat) as int == 0,
{
    let p = pow2((o - 1) as nat) as int;
    let q = pow2(o as nat) as int;
    lemma_pow2_pos((o - 1) as nat);
    lemma_pow2_unfold(o as nat);
    let k = a / q;
    assert(a == k * q) by (nonlinear_arith)
        requires
            a % q == 0,
            q > 0,
            k == a / q,
    ;
    let m: int = if b == a {
        2 * k
    } else {
        2 * k + 2
    };
    assert(b == m * p) by (nonlinear_arith)
        requires
            a == k * q,
            q == 2 * p,
            b == a && m == 2 * k || b == a + q && m == 2 * k + 2,
    ;
    vstd::arithmetic::div_mod::lemma_mod_multiples_basic(m, p);
}

/// Where a piece of a block begins that is cut off before its end: at a multiple of its
/// size, and not of twice that.
proof fn lemma_piece(e: int, k: nat, s: int, o: int, at: int)
    requires
        0 <= o < k,
        e % pow2(k) as int == 0,
        at == e - s * pow2(o as nat),
        s % 2 == 1,
    ensures
        at % pow2(o as nat) as int == 0,
        at % pow2((o + 1) as nat) as int != 0,
{
    let p = pow2(o as nat) as int;
    let q = pow2((o + 1) as nat) as int;
    let r = pow2((k - o - 1) as nat) as int;
    let z = pow2(k) as int;
    lemma_pow2_pos(o as nat);
    lemma_pow2_pos(k);
    lemma_pow2_unfold((o + 1) as nat);
    vstd::arithmetic::power2::lemma_pow2_adds((k - o - 1) as nat, (o + 1) as nat);
    assert(z == r * q);
    let m = e / z;
    assert(e == m * z) by (nonlinear_arith)
        requires
            e % z == 0,
            z > 0,
            m == e / z,
    ;
    let h = s / 2;
    let j = m * r - h - 1;
    assert(at == j * q + p && at == (2 * j + 1) * p) by (nonlinear_arith)
        requires
            e == m * z,
            z == r * q,
            q == 2 * p,
            s == 2 * h + 1,
            at == e - s * p,
            j == m * r - h - 1,
    ;
    vstd::arithmetic::div_mod::lemma_mod_multiples_basic(2 * j + 1, p);
    vstd::arithmetic::div_mod::lemma_mod_multiples_vanish(j, p, q);
    assert(q * j + p == at) by (nonlinear_arith)
        requires
            at == j * q + p,
    ;
    vstd::arithmetic::div_mod::lemma_small_mod(p as nat, q as nat);
}

/// What stands in a list with one page more.
pub proof fn lemma_among_push(s: Seq<u32>, x: u32)
    ensures
        forall|p: int| #[trigger] among(s.push(x), p) <==> among(s, p) || p == x,
{
    assert forall|p: int| #[trigger] among(s.push(x), p) <==> among(s, p) || p == x by {
        if among(s, p) {
            let i = choose|i: int| 0 <= i < s.len() && #[trigger] s[i] == p;
            assert(s.push(x)[i] == p);
        }
        assert(s.push(x)[s.len() as int] == x);
    }
}

/// The same pages in ascending order.
fn ascending(v: &Vec<u32>) -> (r: Vec<u32>)
    requires
        v@.no_duplicates(),
    ensures
        r.len() == v.len(),
        forall|i: int, j: int| 0 <= i < j < r.len() ==> r[i] < r[j],
        forall|p: int|
            #![trigger among(r@, p)]
            #![trigger among(v@, p)]
            among(r@, p) <==> among(v@, p),
{
    let mut r: Vec<u32> = Vec::new();
    let mut i: usize = 0;
    while i < v.len()
        invariant
            i <= v.len(),
            v@.no_duplicates(),
            r.len() == i,
            forall|i: int, j: int| 0 <= i < j < r.len() ==> r[i] < r[j],
            forall|p: int| #[trigger] among(r@, p) <==> among(v@.take(i as int), p),
        decreases v.len() - i,
    {
        let x: u32 = v[i];
        let ghost seen = v@.take(i as int);
        proof {
            assert(v@.take(i + 1) =~= seen.push(x));
            lemma_among_push(seen, x);
        }
        match search(&r, x) {
            Ok(pos) => {
                proof {
                    assert(among(r@, x as int));
                    assert(among(seen, x as int));
                    let k = choose|k: int| 0 <= k < seen.len() && #[trigger] seen[k] == x;
                    assert(v@[k] == v@[i as int]);
                    assert(false);
                }
            },
            Err(pos) => {
                let ghost r0 = r@;
                r.insert(pos, x);
                assert forall|p: int| #[trigger] among(r@, p) <==> among(r0, p) || p == x by {
                    if among(r@, p) {
                        let k = choose|k: int| 0 <= k < r@.len() && #[trigger] r@[k] == p;
                        if k < pos {
                            assert(r0[k] == p);
                        } else if k > pos {
                            assert(r0[k - 1] == p);
                        }
                    }
                    if among(r0, p) {
                        let k = choose|k: int| 0 <= k < r0.len() && #[trigger] r0[k] == p;
                        if k < pos {
                            assert(r@[k] == p);
                        } else {
                            assert(r@[k + 1] == p);
                        }
                    }
                    assert(r@[pos as int] == x);
                }
                assert forall|p: int| #[trigger] among(r@, p) <==> among(v@.take(i + 1), p) by {
                    assert(among(r0, p) <==> among(seen, p));
                    assert(among(seen.push(x), p) <==> among(seen, p) || p == x);
                }
            },
        }
        i = i + 1;
    }
    assert(v@.take(i as int) =~= v@);
    r
}

/// Lists without any block hold no pages.
pub proof fn lemma_total_zero(ls: Seq<Seq<u32>>)
    requires
        forall|o: int| 0 <= o < ls.len() ==> (#[trigger] ls[o]).len() == 0,
    ensures
        total(ls) == 0,
    decreases ls.len(),
{
    if ls.len() > 0 {
        assert forall|o: int| 0 <= o < ls.drop_last().len() implies (
        #[trigger] ls.drop_last()[o]).len() == 0 by {
            assert(ls.drop_last()[o] == ls[o]);
        }
        lemma_total_zero(ls.drop_last());
        assert(ls.last() == ls[ls.len() - 1]);
        assert(0 * pow2((ls.len() - 1) as nat) == 0);
    }
}

/// The free pages as a set.
pub open spec fn free_set(ls: Seq<Seq<u32>>) -> Set<int> {
    Set::new(|p: int| in_free(ls, p))
}

/// The blocks hold as many pages as there are free ones.
pub proof fn lemma_total_is_count(ls: Seq<Seq<u32>>, lim: int)
    requires
        lists_ok(ls, lim),
    ensures
        free_set(ls).finite(),
        free_set(ls).len() == total(ls),
    decreases total(ls),
{
    if exists|o: int| 0 <= o < ls.len() && (#[trigger] ls[o]).len() > 0 {
        let o = choose|o: int| 0 <= o < ls.len() && (#[trigger] ls[o]).len() > 0;
        let n = without_block(ls, o, 0);
        assert(listed(ls, o, 0));
        lemma_without_block(ls, lim, o, 0);
        lemma_pow2_pos(o as nat);
        lemma_total_is_count(n, lim);
        let b: int = ls[o][0] as int;
        let range = vstd::set_lib::set_int_range(b, b + pow2(o as nat));
        vstd::set_lib::lemma_int_range(b, b + pow2(o as nat));
        assert(free_set(n).disjoint(range));
        vstd::set_lib::lemma_set_disjoint_lens(free_set(n), range);
        assert(free_set(ls) =~= free_set(n) + range) by {
            assert forall|p: int| free_set(ls).contains(p) == (free_set(n) + range).contains(p) by {
                assert(in_free(n, p) <==> in_free(ls, p) && !(b <= p < b + pow2(o as nat)));
            }
        }
    } else {
        lemma_total_zero(ls);
        assert forall|p: int| !in_free(ls, p) by {
            if in_free(ls, p) {
                let (o, i) = choose|o: int, i: int| #[trigger] covers(ls, o, i, p);
                assert(ls[o].len() > 0);
            }
        }
        assert(free_set(ls) =~= Set::<int>::empty());
    }
}

/// There are fewer free pages than pages.
pub proof fn lemma_total_bound(ls: Seq<Seq<u32>>, lim: int)
    requires
        lists_ok(ls, lim),
        lim >= 1,
    ensures
        total(ls) < lim,
{
    lemma_total_is_count(ls, lim);
    vstd::set_lib::lemma_int_range(1, lim);
    assert forall|p: int| free_set(ls).contains(p) implies vstd::set_lib::set_int_range(
        1,
        lim,
    ).contains(p) by {
        let (o, i) = choose|o: int, i: int| #[trigger] covers(ls, o, i, p);
        assert(listed(ls, o, i));
    }
    vstd::set_lib::lemma_len_subset(free_set(ls), vstd::set_lib::set_int_range(1, lim));
}

} // verus!
