//! The image of the database file and its free pages: giving pages out, taking them
//! back, and growing the file.
use crate::blocks::{
    among, carved, covers, has_order, in_free, is_order, lemma_neat_without, lemma_one_order,
    lemma_order_exists, lemma_pow2_le, lemma_total_bound, lemma_total_zero, lemma_without_block,
    listed, lists_ok, neat, num_blocks, order_of, order_to_size, run_of, size_to_order, spread,
    total, without_block, RmdbFreePages, RMDB_MAXORDER,
};
use crate::bytes::{in_img, lemma_in_img, lemma_page_len, page};
use crate::error::RmdbError;
use crate::options::RMDB_MINPAGESIZE;
use vstd::arithmetic::power2::{lemma_pow2_pos, lemma_pow2_unfold, pow2};
use vstd::prelude::*;

verus! {

/// What a writer works on: the image of the file, and the pages of it that are free.
#[derive(Debug)]
pub struct RmdbWr {
    /// How many pages the database has.
    pub num_pages: u32,
    /// The bytes of the file.
    pub mmap: Vec<u8>,
    pub freepages: RmdbFreePages,
}

/// Whether `b` is `a` with zeros behind it.
pub open spec fn extends(a: Seq<u8>, b: Seq<u8>) -> bool {
    &&& a.len() <= b.len()
    &&& b.subrange(0, a.len() as int) == a
    &&& forall|i: int| a.len() <= i < b.len() ==> b[i] == 0
}

/// To how many pages the database grows where page `to_page` is wanted: at least four
/// more, and a multiple of four.
pub open spec fn grown(to_page: int) -> int {
    ((to_page + 7) / 4) * 4
}

/// The least order, from `o` on, of which there is a block.
pub open spec fn first_order(ls: Seq<Seq<u32>>, o: int) -> int
    decreases ls.len() - o,
{
    if o >= ls.len() || o < 0 || ls[o].len() > 0 {
        o
    } else {
        first_order(ls, o + 1)
    }
}

/// The block that pages are taken from: the last of the least order that is large enough.
pub open spec fn source(ls: Seq<Seq<u32>>, o: int) -> u32 {
    ls[first_order(ls, o)].last()
}

/// The lists after `n` pages were taken from the front of that block.
pub open spec fn less_pages(ls: Seq<Seq<u32>>, n: int, o: int) -> Seq<Seq<u32>> {
    let k = first_order(ls, o);
    carved(without_block(ls, k, ls[k].len() - 1), source(ls, o) + n, pow2(k as nat) - n, 0)
}

/// The `n` pages that are put together from blocks of order `o` at most, and the lists
/// without them: each time from the last of the largest blocks that are not larger than
/// the block for what is still wanted.
pub open spec fn gathered(ls: Seq<Seq<u32>>, n: int, o: int) -> Option<(Seq<u32>, Seq<Seq<u32>>)>
    decreases n, o + 1,
{
    if n <= 0 {
        Some((Seq::empty(), ls))
    } else if o < 0 || o >= ls.len() {
        None
    } else if ls[o].len() == 0 {
        gathered(ls, n, o - 1)
    } else {
        let b = ls[o].last();
        let s = pow2(o as nat) as int;
        let t = if n < s {
            n
        } else {
            s
        };
        proof {
            lemma_pow2_pos(o as nat);
        }
        put_before(
            run_of(b, t),
            gathered(carved(without_block(ls, o, ls[o].len() - 1), b + t, s - t, 0), n - t, order_of(n - t)),
        )
    }
}

/// Pages that were taken before others.
pub open spec fn put_before(
    res: Seq<u32>,
    x: Option<(Seq<u32>, Seq<Seq<u32>>)>,
) -> Option<(Seq<u32>, Seq<Seq<u32>>)> {
    match x {
        Some((more, ls)) => Some((res + more, ls)),
        None => None,
    }
}

/// Whether the database can still grow by what `n` pages in a row need.
pub open spec fn room_for(num_pages: int, ps: int, n: int) -> bool {
    &&& num_pages + 2 * n + 7 <= u32::MAX
    &&& (num_pages + 2 * n + 8) * ps <= usize::MAX
}

impl RmdbWr {
    /// The lists of free pages.
    pub open spec fn ls(self) -> Seq<Seq<u32>> {
        self.freepages.ls()
    }

    /// The free pages are pages of the database, each listed once, and counted, and the
    /// file has all pages.
    pub open spec fn ok(self, ps: int) -> bool {
        &&& lists_ok(self.ls(), self.num_pages as int)
        &&& self.freepages.free == total(self.ls())
        &&& ps >= RMDB_MINPAGESIZE
        &&& 1 <= self.num_pages
        &&& self.mmap.len() as int % ps == 0
        &&& self.num_pages <= self.mmap.len() as int / ps
    }

    /// The pages of the database are in the image.
    pub proof fn lemma_pages_in(self, ps: int, p: int)
        requires
            self.ok(ps),
            0 <= p < self.num_pages,
        ensures
            in_img(self.mmap@, ps, p),
            page(self.mmap@, ps, p).len() == ps,
    {
        let (n, m, k) = (self.num_pages as int, self.mmap.len() as int, ps);
        assert(n * k <= m) by (nonlinear_arith)
            requires
                n <= m / k,
                k >= 1,
        ;
        lemma_in_img(self.mmap@, ps, self.num_pages as int, p);
        lemma_page_len(self.mmap@, ps, p);
    }

    /// Whether `self` came from `w` by taking the pages `res`, growing where there were
    /// not enough.
    pub open spec fn gave(self, w: RmdbWr, res: Seq<u32>) -> bool {
        &&& self.num_pages >= w.num_pages
        &&& extends(w.mmap@, self.mmap@)
        &&& res.no_duplicates()
        &&& forall|i: int|
            0 <= i < res.len() ==> in_free(w.ls(), #[trigger] res[i] as int) || w.num_pages
                <= res[i] < self.num_pages
        &&& forall|p: int|
            #![trigger in_free(self.ls(), p)]
            in_free(self.ls(), p) <==> (in_free(w.ls(), p) || w.num_pages <= p < self.num_pages)
                && !among(res, p)
    }

    /// How many pages there are when `n` of them were given out, which take a block of
    /// order `o`: as many as before where there are enough free ones, for `contiguous`
    /// pages in one block.
    pub open spec fn pages_after(self, n: int, o: int, contiguous: bool) -> int {
        if n <= self.freepages.free && (contiguous ==> has_order(self.ls(), o)) {
            self.num_pages as int
        } else {
            grown(self.num_pages + pow2(o as nat))
        }
    }

    /// How many bytes the file has with `np` pages.
    pub open spec fn grown_len(self, ps: int, np: int) -> int {
        if np == self.num_pages || (np + 1) * ps <= self.mmap.len() {
            self.mmap.len() as int
        } else {
            (np + 1) * ps
        }
    }

    /// The lists when there is room for `n` pages, which take a block of order `o`: as they
    /// are, or with the pages by which the database grows.
    pub open spec fn lists_after(self, n: int, o: int, contiguous: bool) -> Seq<Seq<u32>> {
        let np = self.pages_after(n, o, contiguous);
        if np == self.num_pages {
            self.ls()
        } else {
            spread(self.ls(), self.num_pages as int, np - self.num_pages, order_of(np - self.num_pages))
        }
    }

    /// Adds pages up to `to_page` and a few more, which are then free. The file is made
    /// larger where it has not got that many.
    pub(crate) fn growdb(&mut self, ps: usize, to_page: u32) -> (r: Result<(), RmdbError>)
        requires
            old(self).ok(ps as int),
            old(self).num_pages < to_page,
            to_page + 7 <= u32::MAX,
            (to_page + 8) * ps <= usize::MAX,
        ensures
            r is Ok,
            final(self).ok(ps as int),
            final(self).num_pages == grown(to_page as int),
            final(self).num_pages > to_page,
            final(self).mmap.len() == old(self).grown_len(ps as int, final(self).num_pages as int),
            extends(old(self).mmap@, final(self).mmap@),
            forall|p: int|
                #![trigger in_free(final(self).ls(), p)]
                #![trigger in_free(old(self).ls(), p)]
                in_free(final(self).ls(), p) <==> in_free(old(self).ls(), p)
                    || old(self).num_pages <= p < final(self).num_pages,
            final(self).freepages.free == old(self).freepages.free + final(self).num_pages - old(
                self,
            ).num_pages,
            final(self).ls() == spread(
                old(self).ls(),
                old(self).num_pages as int,
                final(self).num_pages - old(self).num_pages,
                order_of(final(self).num_pages - old(self).num_pages),
            ),
            num_blocks(final(self).ls()) <= num_blocks(old(self).ls()) + 33,
            forall|k: nat| #[trigger]
                pow2(k) <= to_page - old(self).num_pages && k <= RMDB_MAXORDER ==> has_order(
                    final(self).ls(),
                    k as int,
                ),
    {
        let oldpages: u32 = self.num_pages;
        let numpages: u32 = ((to_page + 7) / 4) * 4;
        proof {
            assert((numpages + 1) * ps <= (to_page + 8) * ps) by (nonlinear_arith)
                requires
                    numpages <= to_page + 7,
                    ps >= 0,
            ;
            let (n, l, k) = (numpages as int, self.mmap.len() as int, ps as int);
            assert(((n + 1) * k) as int % k == 0 && ((n + 1) * k) / k == n + 1 && ((n + 1) * k <= l
                ==> n <= l / k)) by (nonlinear_arith)
                requires
                    k >= 1,
            ;
            assert(self.mmap@.subrange(0, l) =~= self.mmap@);
            lemma_count_fits(numpages, ps);
        }
        let size: usize = (numpages as usize + 1) * ps;
        let filelen: usize = self.mmap.len();
        if size > filelen {
            self.mmap.resize(size, 0);
        }
        self.num_pages = numpages;
        let pluspages: u32 = numpages - oldpages;
        proof {
            lemma_lists_wider(self.ls(), oldpages as int, numpages as int);
            lemma_total_bound(self.ls(), oldpages as int);
        }
        self.freepages.put_range(oldpages, pluspages, Ghost(numpages as int))?;
        proof {
            assert(total(self.ls()) == total(old(self).ls()) + pluspages);
        }
        self.freepages.free = self.freepages.free + pluspages;
        Ok(())
    }

    /// Takes the last block of order `o` out of its list.
    fn pop_block(&mut self, o: usize) -> (r: Option<u32>)
        requires
            lists_ok(old(self).ls(), old(self).num_pages as int),
            o <= RMDB_MAXORDER,
        ensures
            lists_ok(final(self).ls(), old(self).num_pages as int),
            final(self).num_pages == old(self).num_pages,
            final(self).mmap == old(self).mmap,
            final(self).freepages.free == old(self).freepages.free,
            match r {
                Some(b) => {
                    &&& old(self).ls()[o as int].len() > 0
                    &&& b == old(self).ls()[o as int].last()
                    &&& neat(old(self).ls()) ==> neat(final(self).ls()) && b as int % pow2(
                        o as nat,
                    ) as int == 0
                    &&& final(self).ls() == without_block(
                        old(self).ls(),
                        o as int,
                        old(self).ls()[o as int].len() - 1,
                    )
                    &&& final(self).popped(*old(self), b, o as int)
                },
                None => *final(self) == *old(self) && old(self).ls()[o as int].len() == 0,
            },
    {
        let ghost ls = self.ls();
        assert(ls[o as int] == self.freepages.lists[o as int]@);
        let len: usize = self.freepages.lists[o].len();
        if len == 0 {
            return None;
        }
        assert(listed(ls, o as int, len - 1));
        proof {
            lemma_without_block(ls, self.num_pages as int, o as int, len - 1);
            if neat(ls) {
                lemma_neat_without(ls, o as int, len - 1);
            }
        }
        let b: u32 = self.freepages.lists[o].remove(len - 1);
        assert(self.ls() =~= without_block(ls, o as int, len - 1));
        Some(b)
    }

    /// Whether `self` is `w` without the block `b` of order `o`.
    spec fn popped(self, w: RmdbWr, b: u32, o: int) -> bool {
        &&& 1 <= b
        &&& b + pow2(o as nat) <= w.num_pages
        &&& forall|p: int|
            #![trigger in_free(self.ls(), p)]
            #![trigger in_free(w.ls(), p)]
            in_free(self.ls(), p) <==> in_free(w.ls(), p) && !(b <= p < b + pow2(o as nat))
        &&& forall|p: int| b <= p < b + pow2(o as nat) ==> #[trigger] in_free(w.ls(), p)
        &&& total(self.ls()) == total(w.ls()) - pow2(o as nat)
        &&& num_blocks(self.ls()) < num_blocks(w.ls())
    }

    /// Takes a block out of the first list that is not empty, from order `order` on.
    fn take_block(&mut self, order: usize) -> (r: Option<(u32, usize)>)
        requires
            lists_ok(old(self).ls(), old(self).num_pages as int),
        ensures
            lists_ok(final(self).ls(), old(self).num_pages as int),
            final(self).num_pages == old(self).num_pages,
            final(self).mmap == old(self).mmap,
            final(self).freepages.free == old(self).freepages.free,
            match r {
                Some((b, o)) => {
                    &&& order <= o <= RMDB_MAXORDER
                    &&& has_order(old(self).ls(), order as int)
                    &&& neat(old(self).ls()) ==> neat(final(self).ls()) && b as int % pow2(
                        o as nat,
                    ) as int == 0
                    &&& o == first_order(old(self).ls(), order as int)
                    &&& b == source(old(self).ls(), order as int)
                    &&& final(self).ls() == without_block(
                        old(self).ls(),
                        o as int,
                        old(self).ls()[o as int].len() - 1,
                    )
                    &&& final(self).popped(*old(self), b, o as int)
                },
                None => *final(self) == *old(self) && !has_order(old(self).ls(), order as int),
            },
    {
        let ghost ls = self.ls();
        let mut o: usize = order;
        while o <= RMDB_MAXORDER
            invariant
                order <= o,
                *self == *old(self),
                lists_ok(ls, self.num_pages as int),
                ls == self.ls(),
                forall|k: int| order <= k < o && k < ls.len() ==> (#[trigger] ls[k]).len() == 0,
                first_order(ls, order as int) == first_order(ls, o as int),
            decreases RMDB_MAXORDER + 1 - o,
        {
            match self.pop_block(o) {
                Some(b) => {
                    assert(ls[o as int].len() > 0);
                    return Some((b, o));
                },
                None => {},
            }
            o = o + 1;
        }
        None
    }

    /// Whether `self` is `w`, larger where it had to grow, with no page taken.
    spec fn only_grew(self, w: RmdbWr) -> bool {
        &&& self.num_pages >= w.num_pages
        &&& extends(w.mmap@, self.mmap@)
        &&& forall|p: int|
            #![trigger in_free(self.ls(), p)]
            in_free(self.ls(), p) <==> in_free(w.ls(), p) || w.num_pages <= p < self.num_pages
        &&& num_blocks(self.ls()) <= num_blocks(w.ls()) + 33
        &&& self.num_pages == w.num_pages ==> self.mmap == w.mmap
    }

    /// Sees to it that `n` pages are free, in a row if `contiguous`, and there is a block
    /// for them.
    fn make_room(&mut self, ps: usize, n: usize, order: usize, contiguous: bool) -> (r: Result<
        (),
        RmdbError,
    >)
        requires
            old(self).ok(ps as int),
            n >= 1,
            room_for(old(self).num_pages as int, ps as int, n as int),
            order <= RMDB_MAXORDER,
            n <= pow2(order as nat) <= 2 * n,
        ensures
            r is Ok,
            final(self).ok(ps as int),
            final(self).num_pages <= old(self).num_pages + 2 * n + 7,
            final(self).only_grew(*old(self)),
            final(self).num_pages == old(self).pages_after(n as int, order as int, contiguous),
            final(self).ls() == old(self).lists_after(n as int, order as int, contiguous),
            final(self).mmap.len() == old(self).grown_len(ps as int, final(self).num_pages as int),
            final(self).freepages.free - old(self).freepages.free == final(self).num_pages - old(
                self,
            ).num_pages,
            n <= final(self).freepages.free,
            contiguous ==> has_order(final(self).ls(), order as int),
    {
        let ghost w0 = *self;
        proof {
            lemma_pow2_le(order as nat, 31);
            vstd::arithmetic::power2::lemma2_to64();
        }
        let size: usize = order_to_size(order);
        proof {
            assert((w0.num_pages + size + 8) * ps <= (w0.num_pages + 2 * n + 8) * ps)
                by (nonlinear_arith)
                requires
                    size <= 2 * n,
                    ps >= 0,
            ;
            lemma_lists_wider(self.ls(), self.num_pages as int, self.num_pages as int);
            assert(self.mmap@.subrange(0, self.mmap.len() as int) =~= self.mmap@);
        }
        if n as u32 > self.freepages.free {
            self.growdb(ps, self.num_pages + size as u32)?;
            return Ok(());
        }
        if contiguous && !self.has_block(order) {
            self.growdb(ps, self.num_pages + size as u32)?;
        }
        Ok(())
    }

    /// Whether there is a block of order `order` or more.
    fn has_block(&self, order: usize) -> (r: bool)
        requires
            self.ls().len() == RMDB_MAXORDER + 1,
        ensures
            r == has_order(self.ls(), order as int),
    {
        let mut o: usize = order;
        while o <= RMDB_MAXORDER
            invariant
                order <= o,
                self.ls().len() == RMDB_MAXORDER + 1,
                forall|k: int|
                    order <= k < o && k < self.ls().len() ==> (#[trigger] self.ls()[k]).len() == 0,
            decreases RMDB_MAXORDER + 1 - o,
        {
            assert(self.ls()[o as int] == self.freepages.lists[o as int]@);
            if self.freepages.lists[o].len() > 0 {
                return true;
            }
            o = o + 1;
        }
        false
    }

    /// Gives out `n` free pages, in a row if `contiguous`. Where there is no block for
    /// them the database grows; pages that need not be in a row are put together from
    /// smaller blocks instead, which for more than one page may fail where a smaller block is
    /// wanted in the end and there are only larger ones.
    #[verifier::rlimit(40)]
    pub(crate) fn get_free_pages(&mut self, ps: usize, n: usize, contiguous: bool) -> (r: Result<
        Vec<u32>,
        RmdbError,
    >)
        requires
            old(self).ok(ps as int),
            n >= 1,
            room_for(old(self).num_pages as int, ps as int, n as int),
        ensures
            final(self).ok(ps as int),
            final(self).num_pages <= old(self).num_pages + 2 * n + 7,
            forall|o: int| #[trigger]
                is_order(n as int, o) ==> final(self).num_pages == old(self).pages_after(
                    n as int,
                    o,
                    contiguous,
                ),
            final(self).num_pages == old(self).num_pages ==> final(self).mmap == old(self).mmap,
            final(self).num_pages == old(self).num_pages && neat(old(self).ls()) ==> neat(
                final(self).ls(),
            ),
            final(self).mmap.len() == old(self).grown_len(ps as int, final(self).num_pages as int),
            contiguous || n == 1 ==> r is Ok,
            forall|o: int| #[trigger]
                is_order(n as int, o) ==> {
                    let ls = old(self).lists_after(n as int, o, contiguous);
                    if contiguous || has_order(ls, o) {
                        r matches Ok(res) && res@ == run_of(source(ls, o), n as int)
                            && final(self).ls() == less_pages(ls, n as int, o)
                    } else {
                        match gathered(ls, n as int, o) {
                            Some((pages, rest)) => r matches Ok(res) && res@ == pages
                                && final(self).ls() == rest,
                            None => r is Err,
                        }
                    }
                },
            match r {
                Ok(res) => {
                    &&& res.len() == n
                    &&& final(self).freepages.free + n == old(self).freepages.free
                        + final(self).num_pages - old(self).num_pages
                    &&& contiguous ==> res@ == run_of(res[0], n as int)
                    &&& contiguous ==> num_blocks(final(self).ls()) <= num_blocks(old(self).ls())
                        + 64
                    &&& final(self).gave(*old(self), res@)
                },
                Err(e) => e is InvalidIndexSize,
            },
    {
        let ghost w0 = *self;
        let mut left: usize = n;
        proof {
            lemma_count_fits((w0.num_pages + 2 * n + 7) as u32, ps);
        }
        let order: usize = size_to_order(n);
        proof {
            vstd::arithmetic::power2::lemma2_to64();
            if order > 0 {
                lemma_pow2_unfold(order as nat);
                assert(pow2((order - 1) as nat) < n);
            }
            if order > 31 {
                lemma_pow2_le(31, (order - 1) as nat);
                assert(false);
            }
        }
        if order > RMDB_MAXORDER {
            return Err(RmdbError::InvalidIndexSize);
        }
        self.make_room(ps, n, order, contiguous)?;
        let ghost w1 = *self;
        proof {
            assert forall|o: int| #[trigger] is_order(n as int, o) implies o == order by {
                lemma_one_order(n as int, o, order as int);
            }
        }
        let mut res: Vec<u32> = Vec::new();
        match self.take_block(order) {
            Some((b, o)) => {
                let s: usize = order_to_size(o);
                proof {
                    lemma_pow2_le(order as nat, o as nat);
                    lemma_pow2_le(o as nat, 31);
                }
                self.freepages.get_pages_from_block(
                    b,
                    s,
                    &mut left,
                    &mut res,
                    Ghost(self.num_pages as int),
                )?;
                if left != 0 {
                    return Err(RmdbError::InvalidIndexSize);
                }
                proof {
                    lemma_run(b, n as int);
                    assert(res@ =~= run_of(b, n as int));
                    lemma_gave(w0, w1, *self, res@);
                }
                return Ok(res);
            },
            None => {},
        }
        proof {
            if n == 1 {
                assert forall|k: int| 0 <= k < w1.ls().len() implies (#[trigger] w1.ls()[k]).len()
                    == 0 by {
                    if w1.ls()[k].len() > 0 {
                        lemma_pow2_pos(0);
                        assert(order == 0);
                        assert(has_order(w1.ls(), 0));
                    }
                }
                lemma_total_zero(w1.ls());
            }
        }
        let res: Vec<u32> = self.gather(ps, n)?;
        proof {
            lemma_gave(w0, w1, *self, res@);
        }
        Ok(res)
    }

    /// Puts `n` pages together from the blocks there are: always the largest block that
    /// is not larger than what is still wanted needs.
    fn gather(&mut self, ps: usize, n: usize) -> (r: Result<Vec<u32>, RmdbError>)
        requires
            old(self).ok(ps as int),
            1 < n <= old(self).freepages.free,
            n <= usize::MAX / 2 + 1,
            n <= 0x8000_0000,
        ensures
            final(self).ok(ps as int),
            final(self).num_pages == old(self).num_pages,
            final(self).mmap == old(self).mmap,
            neat(old(self).ls()) ==> neat(final(self).ls()),
            forall|o: int| #[trigger]
                is_order(n as int, o) ==> match gathered(old(self).ls(), n as int, o) {
                    Some((pages, rest)) => r matches Ok(res) && res@ == pages && final(self).ls()
                        == rest,
                    None => r is Err,
                },
            match r {
                Ok(res) => {
                    &&& res.len() == n
                    &&& final(self).freepages.free == old(self).freepages.free - n
                    &&& res@.no_duplicates()
                    &&& forall|i: int|
                        0 <= i < res.len() ==> in_free(old(self).ls(), #[trigger] res[i] as int)
                    &&& forall|p: int|
                        #![trigger in_free(final(self).ls(), p)]
                        in_free(final(self).ls(), p) <==> in_free(old(self).ls(), p) && !among(
                            res@,
                            p,
                        )
                },
                Err(e) => e is InvalidIndexSize,
            },
    {
        let ghost w1 = *self;
        let mut left: usize = n;
        let mut res: Vec<u32> = Vec::new();
        let mut o: usize = size_to_order(left);
        let ghost whole = gathered(w1.ls(), n as int, o as int);
        proof {
            assert forall|k: int| #[trigger] is_order(n as int, k) implies k == o by {
                lemma_one_order(n as int, k, o as int);
            }
            assert(whole is Some ==> res@ + whole->Some_0.0 =~= whole->Some_0.0);
            vstd::arithmetic::power2::lemma2_to64();
            if o > 31 {
                lemma_pow2_le(31, (o - 1) as nat);
                assert(pow2((o - 1) as nat) < left);
            }
        }
        while left > 0
            invariant
                o <= RMDB_MAXORDER,
                left <= self.freepages.free,
                self.freepages.free == total(self.ls()),
                lists_ok(self.ls(), w1.num_pages as int),
                self.num_pages == w1.num_pages,
                self.mmap == w1.mmap,
                w1.ok(ps as int),
                w1 == *old(self),
                n <= usize::MAX / 2 + 1,
                n <= 0x8000_0000,
                res.len() + left == n,
                self.freepages.free + n == w1.freepages.free + left,
                neat(w1.ls()) ==> neat(self.ls()),
                forall|k: int| #[trigger]
                    is_order(n as int, k) ==> whole == gathered(w1.ls(), n as int, k),
                whole == put_before(res@, gathered(self.ls(), left as int, o as int)),
                res@.no_duplicates(),
                forall|i: int| 0 <= i < res.len() ==> in_free(w1.ls(), #[trigger] res[i] as int),
                forall|p: int|
                    #![trigger in_free(self.ls(), p)]
                    in_free(self.ls(), p) <==> in_free(w1.ls(), p) && !among(res@, p),
            decreases left, o,
        {
            let ghost w2 = *self;
            let ghost res2 = res@;
            match self.pop_block(o) {
                Some(b) => {
                    proof {
                        lemma_pow2_le(o as nat, 31);
                        vstd::arithmetic::power2::lemma2_to64();
                    }
                    let s: usize = order_to_size(o);
                    let ghost t: int = if left < s {
                        left as int
                    } else {
                        s as int
                    };
                    proof {
                        lemma_pow2_pos(o as nat);
                    }
                    let ghost w3 = *self;
                    self.freepages.get_pages_from_block(
                        b,
                        s,
                        &mut left,
                        &mut res,
                        Ghost(self.num_pages as int),
                    )?;
                    proof {
                        lemma_run(b, t);
                        lemma_run_joined(res2, b, t);
                        assert forall|p: int|
                            #![trigger in_free(self.ls(), p)]
                            in_free(self.ls(), p) <==> in_free(w1.ls(), p) && !among(res@, p) by {
                            assert(in_free(w2.ls(), p) <==> in_free(w1.ls(), p) && !among(res2, p));
                            assert(in_free(w3.ls(), p) <==> in_free(w2.ls(), p) && !(b <= p < b
                                + pow2(o as nat)));
                            assert(among(res2 + run_of(b, t), p) <==> among(res2, p) || b <= p < b
                                + t);
                            if b <= p < b + pow2(o as nat) {
                                assert(in_free(w2.ls(), p));
                            }
                        }
                        assert forall|i: int| 0 <= i < res.len() implies in_free(
                            w1.ls(),
                            #[trigger] res[i] as int,
                        ) by {
                            assert(among(res@, res[i] as int));
                            if i >= res2.len() {
                                assert(in_free(w2.ls(), res[i] as int));
                            } else {
                                assert(res[i] == res2[i]);
                            }
                        }
                        assert(res@.no_duplicates()) by {
                            assert forall|i: int, j: int|
                                0 <= i < res2.len() && 0 <= j < t implies res2[i] != run_of(b, t)[j] by {
                                assert(among(res2, res2[i] as int));
                                assert(!in_free(w2.ls(), res2[i] as int));
                                assert(in_free(w2.ls(), run_of(b, t)[j] as int));
                            }
                        }
                    }
                    let ghost was = o as int;
                    o = size_to_order(left);
                    proof {
                        lemma_order_exists(left as int);
                        lemma_one_order(left as int, o as int, order_of(left as int));
                        let x = gathered(self.ls(), left as int, o as int);
                        assert(gathered(w2.ls(), left + t, was) == put_before(run_of(b, t), x));
                        if x is Some {
                            assert(res2 + (run_of(b, t) + x->Some_0.0) =~= res@ + x->Some_0.0);
                        }
                        if o > 31 {
                            lemma_pow2_le(31, (o - 1) as nat);
                            assert(pow2((o - 1) as nat) < left);
                        }
                    }
                },
                None => {
                    if o == 0 {
                        assert(gathered(self.ls(), left as int, -1) is None);
                        return Err(RmdbError::InvalidIndexSize);
                    }
                    o = o - 1;
                },
            }
        }
        assert(res@ + Seq::<u32>::empty() =~= res@);
        Ok(res)
    }
}

/// The pages of a run are `count` different pages, those from `from` on.
pub proof fn lemma_run(from: u32, count: int)
    requires
        0 <= count,
        from + count <= u32::MAX,
    ensures
        run_of(from, count).len() == count,
        run_of(from, count).no_duplicates(),
        forall|p: int| #[trigger] among(run_of(from, count), p) <==> from <= p < from + count,
{
    let r = run_of(from, count);
    assert forall|p: int| #[trigger] among(r, p) <==> from <= p < from + count by {
        if from <= p < from + count {
            assert(r[p - from] == p);
        }
    }
}

/// Growing and then taking pages is giving pages out.
proof fn lemma_gave(w0: RmdbWr, w1: RmdbWr, w2: RmdbWr, res: Seq<u32>)
    requires
        w1.only_grew(w0),
        w2.num_pages == w1.num_pages,
        w2.mmap == w1.mmap,
        res.no_duplicates(),
        forall|p: int| #[trigger] among(res, p) ==> in_free(w1.ls(), p),
        forall|p: int|
            #![trigger in_free(w2.ls(), p)]
            in_free(w2.ls(), p) <==> in_free(w1.ls(), p) && !among(res, p),
    ensures
        w2.gave(w0, res),
{
    assert forall|i: int| 0 <= i < res.len() implies in_free(w0.ls(), #[trigger] res[i] as int)
        || w0.num_pages <= res[i] < w2.num_pages by {
        assert(among(res, res[i] as int));
    }
    assert forall|p: int|
        in_free(w2.ls(), p) <==> (in_free(w0.ls(), p) || w0.num_pages <= p < w2.num_pages)
            && !among(res, p) by {
        assert(in_free(w1.ls(), p) <==> in_free(w0.ls(), p) || w0.num_pages <= p < w1.num_pages);
    }
}

/// What is among two lists of pages together.
proof fn lemma_run_joined(a: Seq<u32>, from: u32, count: int)
    requires
        0 <= count,
        from + count <= u32::MAX,
    ensures
        forall|p: int| #[trigger]
            among(a + run_of(from, count), p) <==> among(a, p) || from <= p < from + count,
{
    let r = run_of(from, count);
    lemma_run(from, count);
    assert forall|p: int| #[trigger] among(a + r, p) <==> among(a, p) || from <= p < from + count by {
        if among(a + r, p) {
            let i = choose|i: int| 0 <= i < (a + r).len() && #[trigger] (a + r)[i] == p;
            if i < a.len() {
                assert(a[i] == p);
            } else {
                assert(r[i - a.len()] == p);
                assert(among(r, p));
            }
        }
        if among(a, p) {
            let i = choose|i: int| 0 <= i < a.len() && #[trigger] a[i] == p;
            assert((a + r)[i] == p);
        }
        if from <= p < from + count {
            assert((a + r)[a.len() + (p - from)] == p);
        }
    }
}

/// A number of pages that all fit in memory is no more than half of what `usize` counts.
proof fn lemma_count_fits(n: u32, ps: usize)
    requires
        (n + 1) * ps <= usize::MAX,
        ps >= 2,
    ensures
        n < usize::MAX / 2,
        n + 1 <= usize::MAX,
{
    assert((n + 1) * 2 <= (n + 1) * ps) by (nonlinear_arith)
        requires
            ps >= 2,
            n >= 0,
    ;
}

/// Lists within a limit are within any higher one, and hold no page at the limit or above.
pub proof fn lemma_lists_wider(ls: Seq<Seq<u32>>, lim: int, lim2: int)
    requires
        lists_ok(ls, lim),
        lim <= lim2,
    ensures
        lists_ok(ls, lim2),
        forall|p: int| in_free(ls, p) ==> 1 <= p < lim,
{
    assert forall|p: int| in_free(ls, p) implies 1 <= p < lim by {
        let (o, i) = choose|o: int, i: int| #[trigger] covers(ls, o, i, p);
        assert(listed(ls, o, i));
    }
}

} // verus!
