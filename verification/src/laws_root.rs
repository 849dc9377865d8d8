//! Where the root of a new database stands.
use crate::blocks::{
    among, buddy, consolidated, lemma_order_exists, lemma_pow2_le, order_of, place, put_block,
    spread,
};
use crate::db::{created, Rmdb};
use crate::error::RmdbError;
use crate::freemap::{fresh_lists, rising};
use crate::laws_shape::law_place;
use crate::options::RmdbOptions;
use crate::store::{first_order, source};
use vstd::arithmetic::div_mod::lemma_mod_multiples_basic;
use vstd::arithmetic::power2::{lemma2_to64, lemma_pow2_pos, lemma_pow2_unfold, pow2};
use vstd::prelude::*;

verus! {

/// Pages that are listed in descending blocks leave, of the blocks of one page, those that
/// there were, and a last page where their number is odd.
proof fn lemma_spread_front(ls: Seq<Seq<u32>>, at: int, s: int, o: int, k: int)
    requires
        ls.len() == 32,
        0 <= o <= 31,
        o <= k <= 31,
        forall|x: int|
            0 <= x <= o ==> #[trigger] ls[x] == (if x < k {
                seq![pow2(x as nat) as u32]
            } else {
                Seq::empty()
            }),
        0 < at,
        at + s <= u32::MAX,
        at % pow2(o as nat) as int == 0,
        o < k ==> at % pow2((o + 1) as nat) as int == 0,
        0 <= s < pow2((o + 1) as nat),
        o >= k ==> s <= pow2(o as nat),
    ensures
        spread(ls, at, s, o)[0] == (if s % 2 == 1 {
            ls[0].insert(place(ls[0], at + s - 1), (at + s - 1) as u32)
        } else {
            ls[0]
        }),
    decreases o,
{
    let p = pow2(o as nat) as int;
    lemma_pow2_pos(o as nat);
    lemma_pow2_unfold((o + 1) as nat);
    lemma2_to64();
    lemma_pow2_le(o as nat, 31);
    if s > 0 {
        if o > 0 {
            lemma_pow2_unfold(o as nat);
            lemma_pow2_pos((o - 1) as nat);
        }
        let half = pow2((o - 1) as nat) as int;
        if p <= s {
            let b = buddy(at, o);
            assert(!among(ls[o], b) || among(ls[o], at) || o == 31) by {
                if o < k && among(ls[o], b) {
                    assert(ls[o] =~= seq![p as u32]);
                    assert(b == at + p);
                }
            }
            let n = put_block(ls, o, at);
            assert(consolidated(ls, at, o) == n);
            assert forall|x: int| 0 <= x < o implies #[trigger] n[x] == ls[x] by {}
            if o > 0 {
                lemma_next_start(at, p, half);
                if o >= k {
                    assert(s == p);
                    assert(spread(n, at + p, 0, o - 1) == n);
                    assert(p % 2 == 0);
                } else {
                    lemma_spread_front(n, at + p, s - p, o - 1, k);
                    assert(p == 2 * half);
                    assert((s - p) % 2 == s % 2);
                }
            } else {
                assert(p == 1 && s == 1);
                assert(spread(n, at + 1, 0, -1) == n);
            }
        } else {
            assert(o > 0);
            lemma_next_start(at, p, half);
            lemma_spread_front(ls, at, s, o - 1, k);
        }
    }
}

/// A multiple of a power of two, and the next one, are multiples of the power before.
proof fn lemma_next_start(at: int, p: int, half: int)
    requires
        p == 2 * half,
        half > 0,
        at % p == 0,
    ensures
        at % half == 0,
        (at + p) % half == 0,
        (at + p) % p == 0,
{
    let k = at / p;
    assert(at == k * p) by (nonlinear_arith)
        requires
            k == at / p,
            at % p == 0,
            p > 0,
    ;
    assert(at == (2 * k) * half && at + p == (2 * k + 2) * half && at + p == (k + 1) * p)
        by (nonlinear_arith)
        requires
            at == k * p,
            p == 2 * half,
    ;
    lemma_mod_multiples_basic(2 * k, half);
    lemma_mod_multiples_basic(2 * k + 2, half);
    lemma_mod_multiples_basic(k + 1, p);
}

/// The blocks of one page of a new database.
proof fn lemma_first_list(np: int)
    requires
        2 <= np,
        8 * np + 0x50000 <= u32::MAX,
    ensures
        np % 2 == 0 && np > 2 ==> fresh_lists(np)[0] == seq![1u32],
        np % 2 == 1 ==> fresh_lists(np)[0] == seq![1u32, (np - 1) as u32],
        np == 2 ==> fresh_lists(np)[0] == seq![1u32],
{
    lemma2_to64();
    lemma_order_exists(np);
    let k = order_of(np) - 1;
    assert(k >= 0) by {
        if order_of(np) == 0 {
            assert(np <= pow2(0));
        }
    }
    let half = pow2(k as nat) as int;
    lemma_pow2_unfold((k + 1) as nat);
    lemma_pow2_pos(k as nat);
    assert(half < np <= 2 * half);
    if k > 31 {
        lemma_pow2_le(32, k as nat);
        assert(pow2(32) == 0x1_0000_0000);
        assert(false);
    }
    let s = np - half;
    lemma_order_exists(s);
    let x = order_of(s);
    if x > k {
        assert(pow2(k as nat) < s);
    }
    lemma_pow2_unfold((x + 1) as nat);
    lemma_pow2_pos(x as nat);
    let ls = rising(k);
    assert forall|y: int| 0 <= y <= x implies #[trigger] ls[y] == (if y < k {
        seq![pow2(y as nat) as u32]
    } else {
        Seq::empty()
    }) by {}
    lemma_power_multiple(k, x);
    if x < k {
        lemma_power_multiple(k, x + 1);
    }
    lemma_spread_front(ls, half, s, x, k);
    let last = (np - 1) as u32;
    if k > 0 {
        lemma_pow2_unfold(k as nat);
        assert(half % 2 == 0);
        assert(ls[0] =~= seq![1u32]);
        law_place(ls[0], np - 1);
        assert(np - 1 > 1);
        assert(place(ls[0], np - 1) == 1);
        assert(s % 2 == np % 2);
        assert(ls[0].insert(1, last) =~= seq![1u32, last]);
    } else {
        assert(half == 1 && np == 2 && s == 1);
        assert(ls[0] =~= Seq::empty());
        law_place(ls[0], np - 1);
        assert(ls[0].insert(0, last) =~= seq![1u32]);
    }
}

/// The root of a new database is page 1 where the number of pages that was asked for is even,
/// and the last of these pages where it is odd.
pub proof fn law_first_root(o: RmdbOptions, r: Result<Rmdb, RmdbError>)
    requires
        o.usable(),
        created(Some(o), r),
    ensures
        ({
            let np = (o.init_size + o.pagesize - 1) / o.pagesize as int;
            &&& np % 2 == 0 ==> r->Ok_0.rootpage == 1
            &&& np % 2 == 1 ==> r->Ok_0.rootpage == np - 1
        }),
{
    let np = o.pages();
    lemma_first_list(np);
    let f = fresh_lists(np);
    assert(f[0].len() > 0);
    assert(first_order(f, 0) == 0) by {
        if f.len() == 0 {
            assert(first_order(f, 0) == 0);
        }
    }
    assert(source(f, 0) == f[0].last());
}

/// A power of two is a multiple of those before.
proof fn lemma_power_multiple(k: int, x: int)
    requires
        0 <= x <= k,
    ensures
        pow2(k as nat) as int % pow2(x as nat) as int == 0,
    decreases k - x,
{
    lemma_pow2_pos(x as nat);
    if x == k {
        vstd::arithmetic::div_mod::lemma_mod_self_0(pow2(x as nat) as int);
    } else {
        lemma_power_multiple(k, x + 1);
        lemma_pow2_unfold((x + 1) as nat);
        lemma_next_start(pow2(k as nat) as int, pow2((x + 1) as nat) as int, pow2(x as nat) as int);
    }
}

} // verus!
