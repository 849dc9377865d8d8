//! The map of free pages: the lists of free blocks as they stand in the file.
//!
//! The map takes some pages in a row. Behind its type and its size come, order by order,
//! the number of blocks and the blocks themselves. With integrity on, the last page of
//! the map ends in the hash of the map.
use crate::blocks::{
    among, buddy, has_order, in_free, is_order, lemma_order_exists, lemma_order_of, lemma_pow2_le,
    lemma_total_bound, listed, lists_ok, neat, num_blocks, order_of, order_to_size, run_of,
    size_to_order, spread, total, with_block, RmdbFreePages, RMDB_MAXORDER,
};
use crate::bytes::{
    base_of, get_u32, in_img, le32, lemma_extended, lemma_le32, lemma_page_len, lemma_run_fits,
    lemma_run_head, lemma_run_kept, lemma_run_same, page, page_bytes, page_in, put_u16, put_u32,
    run, run_bytes, same_page, set_bytes, set_run, size_to_pages, splice, u32_at, word_at,
};
use crate::error::RmdbError;
use crate::flags::RmdbFlags;
use crate::hash::{hash_of, same_bytes, sha256};
use crate::layout::{
    Layout, FREE_MAP, FREE_MAP_SIZE, PAGE_FREE, POS_PAGETYPE, PTRSZ, RMDB_P_FREEPAGES,
    RMDB_P_FREESIZE, RMDB_P_ROOT,
};
use crate::store::{extends, grown, lemma_lists_wider, lemma_run, less_pages, RmdbWr};
use vstd::arithmetic::power2::{lemma_pow2_pos, lemma_pow2_unfold, pow2};
use vstd::prelude::*;

verus! {

/// The numbers that the map is made of: for each list, how many blocks it has, and the
/// blocks.
pub open spec fn words(ls: Seq<Seq<u32>>) -> Seq<u32>
    decreases ls.len(),
{
    if ls.len() == 0 {
        Seq::empty()
    } else {
        words(ls.drop_last()) + seq![ls.last().len() as u32] + ls.last()
    }
}

/// Whether the numbers from place 8 of `b` on are those of the lists.
pub open spec fn spells(b: Seq<u8>, ls: Seq<Seq<u32>>) -> bool {
    &&& FREE_MAP + 4 * words(ls).len() <= b.len()
    &&& forall|k: int|
        #![trigger words(ls)[k]]
        0 <= k < words(ls).len() ==> u32_at(b, FREE_MAP + 4 * k) == words(ls)[k]
}

/// How many numbers the map has.
pub proof fn lemma_words_len(ls: Seq<Seq<u32>>)
    ensures
        words(ls).len() == ls.len() + num_blocks(ls),
    decreases ls.len(),
{
    if ls.len() > 0 {
        lemma_words_len(ls.drop_last());
    }
}

/// No more blocks are listed than pages.
pub proof fn lemma_blocks_bound(ls: Seq<Seq<u32>>)
    ensures
        num_blocks(ls) <= total(ls),
        forall|o: int| 0 <= o < ls.len() ==> (#[trigger] ls[o]).len() <= num_blocks(ls),
    decreases ls.len(),
{
    if ls.len() > 0 {
        let front = ls.drop_last();
        let n: int = ls.last().len() as int;
        let k: int = pow2((ls.len() - 1) as nat) as int;
        lemma_blocks_bound(front);
        lemma_pow2_pos((ls.len() - 1) as nat);
        assert(n <= n * k) by (nonlinear_arith)
            requires
                n >= 0,
                k >= 1,
        ;
        assert forall|o: int| 0 <= o < ls.len() implies (#[trigger] ls[o]).len() <= num_blocks(ls) by {
            if o < ls.len() - 1 {
                assert(front[o] == ls[o]);
            }
        }
    }
}

/// Where in the map the numbers of list `o` stand.
proof fn lemma_words_at(ls: Seq<Seq<u32>>, o: int)
    requires
        0 <= o < ls.len(),
    ensures
        ({
            let at = words(ls.take(o)).len() as int;
            &&& words(ls.take(o + 1)).len() == at + 1 + ls[o].len()
            &&& at + 1 + ls[o].len() <= words(ls).len()
            &&& words(ls)[at] == ls[o].len() as u32
            &&& forall|i: int|
                #![trigger ls[o][i]]
                0 <= i < ls[o].len() ==> words(ls)[at + 1 + i] == ls[o][i]
        }),
    decreases ls.len(),
{
    let n = ls.len() - 1;
    let front = ls.drop_last();
    assert(ls.take(o + 1).drop_last() =~= ls.take(o));
    assert(ls.take(o + 1).last() == ls[o]);
    if o == n {
        assert(ls.take(o) =~= front);
        let at = words(front).len() as int;
        assert forall|i: int| #![trigger ls[o][i]] 0 <= i < ls[o].len() implies words(ls)[at + 1 + i]
            == ls[o][i] by {}
    } else {
        lemma_words_at(front, o);
        assert(front.take(o) =~= ls.take(o));
        assert(front[o] == ls[o]);
        let at = words(ls.take(o)).len() as int;
        assert(words(ls)[at] == words(front)[at]);
        assert forall|i: int| #![trigger ls[o][i]] 0 <= i < ls[o].len() implies words(ls)[at + 1 + i]
            == ls[o][i] by {
            assert(words(front)[at + 1 + i] == front[o][i]);
        }
    }
}

/// The pages of the first lists are no more than those of all.
proof fn lemma_total_take(ls: Seq<Seq<u32>>, o: int)
    requires
        0 <= o < ls.len(),
    ensures
        total(ls.take(o + 1)) == total(ls.take(o)) + ls[o].len() * pow2(o as nat),
        total(ls.take(o + 1)) <= total(ls),
    decreases ls.len(),
{
    let front = ls.drop_last();
    assert(ls.take(o + 1).drop_last() =~= ls.take(o));
    assert(ls.take(o + 1).last() == ls[o]);
    if o == ls.len() - 1 {
        assert(ls.take(o + 1) =~= ls);
    } else {
        lemma_total_take(front, o);
        assert(front.take(o + 1) =~= ls.take(o + 1));
        assert(0 <= ls.last().len() * pow2((ls.len() - 1) as nat)) by (nonlinear_arith);
    }
}

/// The lists of a vector of vectors.
pub open spec fn lists_view(lists: Seq<Vec<u32>>) -> Seq<Seq<u32>> {
    lists.map_values(|v: Vec<u32>| v@)
}

/// Whether `b` is the map of the lists, which name no more pages than can be counted.
pub open spec fn spelled(b: Seq<u8>, ls: Seq<Seq<u32>>) -> bool {
    spells(b, ls) && ls.len() == RMDB_MAXORDER + 1 && total(ls) <= u32::MAX
}

/// Whether `b` is the map of some lists.
pub open spec fn is_map(b: Seq<u8>) -> bool {
    exists|ls: Seq<Seq<u32>>| #[trigger] spelled(b, ls)
}

/// Reads the lists back from the map, and how many pages they list together.
fn parse_lists(map: &[u8]) -> (r: Result<(Vec<Vec<u32>>, u32), RmdbError>)
    ensures
        match r {
            Ok((lists, free)) => spelled(map@, lists_view(lists@)) && free == total(
                lists_view(lists@),
            ) && forall|ls: Seq<Seq<u32>>| #[trigger]
                spelled(map@, ls) ==> ls == lists_view(lists@),
            Err(e) => !is_map(map@) && e is InvalidDBFile,
        },
{
    let mut lists: Vec<Vec<u32>> = Vec::new();
    let mut ptr: usize = FREE_MAP;
    let mut free: u64 = 0;
    let mut o: usize = 0;
    assert(lists_view(lists@) =~= Seq::empty());
    assert forall|ls: Seq<Seq<u32>>| #[trigger] spelled(map@, ls) implies ls.take(0) == lists_view(
        lists@,
    ) by {
        assert(ls.take(0) =~= Seq::empty());
    }
    while o <= RMDB_MAXORDER
        invariant
            o <= RMDB_MAXORDER + 1,
            lists.len() == o,
            ptr <= map.len() || ptr == FREE_MAP,
            free <= u32::MAX,
            ptr == FREE_MAP + 4 * words(lists_view(lists@)).len(),
            free == total(lists_view(lists@)),
            o > 0 ==> spells(map@, lists_view(lists@)),
            forall|ls: Seq<Seq<u32>>| #[trigger]
                spelled(map@, ls) ==> ls.take(o as int) == lists_view(lists@),
        decreases RMDB_MAXORDER + 1 - o,
    {
        let ghost got = lists_view(lists@);
        let ghost at = words(got).len() as int;
        if map.len() < 4 || ptr > map.len() - 4 {
            proof {
                lemma_no_room(map@, got);
            }
            return Err(RmdbError::InvalidDBFile);
        }
        let num: u32 = word_at(map, ptr);
        ptr = ptr + PTRSZ;
        let mut list: Vec<u32> = Vec::new();
        let mut i: u32 = 0;
        proof {
            assert forall|ls: Seq<Seq<u32>>| #[trigger] spelled(map@, ls) implies ls[o as int].len()
                == num && ls[o as int].take(0) == list@ by {
                lemma_next_list(map@, ls, got);
                assert(ls[o as int].take(0) =~= list@);
            }
        }
        while i < num
            invariant
                o <= RMDB_MAXORDER,
                got.len() == o,
                at == words(got).len(),
                i <= num,
                list.len() == i,
                ptr <= map.len(),
                ptr == FREE_MAP + 4 * (at + 1 + i),
                num == u32_at(map@, FREE_MAP + 4 * at),
                forall|k: int|
                    0 <= k < i ==> #[trigger] list[k] == u32_at(map@, FREE_MAP + 4 * (at + 1 + k)),
                forall|ls: Seq<Seq<u32>>| #[trigger]
                    spelled(map@, ls) ==> ls.take(o as int) == got && ls[o as int].len() == num
                        && ls[o as int].take(i as int) == list@,
            decreases num - i,
        {
            if map.len() < 4 || ptr > map.len() - 4 {
                proof {
                    assert forall|ls: Seq<Seq<u32>>| !#[trigger] spelled(map@, ls) by {
                        if spelled(map@, ls) {
                            lemma_next_list(map@, ls, got);
                        }
                    }
                }
                return Err(RmdbError::InvalidDBFile);
            }
            let entry: u32 = word_at(map, ptr);
            list.push(entry);
            proof {
                assert forall|ls: Seq<Seq<u32>>| #[trigger] spelled(map@, ls) implies ls.take(
                    o as int,
                ) == got && ls[o as int].len() == num && ls[o as int].take(i + 1) == list@ by {
                    lemma_next_list(map@, ls, got);
                    assert(ls[o as int][i as int] == entry);
                    assert(ls[o as int].take(i + 1) =~= ls[o as int].take(i as int).push(entry));
                }
            }
            ptr = ptr + PTRSZ;
            i = i + 1;
        }
        proof {
            vstd::arithmetic::power2::lemma2_to64();
            lemma_pow2_le(o as nat, 31);
            vstd::bits::lemma_u64_pow2_no_overflow(o as nat);
            vstd::bits::lemma_u64_shl_is_mul(1, o as u64);
            let k: int = pow2(o as nat) as int;
            assert(0 <= num * k <= 0xffff_ffff * 0x8000_0000) by (nonlinear_arith)
                requires
                    0 <= num <= 0xffff_ffff,
                    0 <= k <= 0x8000_0000,
            ;
        }
        let ghost before = lists@;
        free = free + num as u64 * (1u64 << (o as u64));
        proof {
            assert(got.push(list@).drop_last() =~= got);
            assert(got.push(list@).last() == list@);
            assert forall|ls: Seq<Seq<u32>>| #[trigger] spelled(map@, ls) implies ls.take(o + 1)
                == got.push(list@) by {
                assert(ls[o as int].take(i as int) =~= ls[o as int]);
                assert(ls.take(o + 1) =~= ls.take(o as int).push(ls[o as int]));
            }
        }
        if free > 0xffff_ffff {
            proof {
                assert forall|ls: Seq<Seq<u32>>| !#[trigger] spelled(map@, ls) by {
                    if spelled(map@, ls) {
                        lemma_total_take(ls, o as int);
                    }
                }
            }
            return Err(RmdbError::InvalidDBFile);
        }
        lists.push(list);
        proof {
            assert(lists_view(lists@) =~= got.push(list@));
            lemma_spells_more(map@, got, list@);
        }
        o = o + 1;
    }
    proof {
        let got = lists_view(lists@);
        assert forall|ls: Seq<Seq<u32>>| #[trigger] spelled(map@, ls) implies ls == got by {
            assert(ls.take(o as int) =~= ls);
        }
    }
    Ok((lists, free as u32))
}

/// A map that is too short for the next list is no map.
proof fn lemma_no_room(b: Seq<u8>, got: Seq<Seq<u32>>)
    requires
        got.len() <= RMDB_MAXORDER,
        FREE_MAP + 4 * words(got).len() + 4 > b.len(),
        forall|ls: Seq<Seq<u32>>| #[trigger]
            spelled(b, ls) ==> ls.take(got.len() as int) == got,
    ensures
        !is_map(b),
{
    assert forall|ls: Seq<Seq<u32>>| !#[trigger] spelled(b, ls) by {
        if spelled(b, ls) {
            lemma_words_at(ls, got.len() as int);
        }
    }
}

/// The list behind those that were read.
pub(crate) proof fn lemma_next_list(b: Seq<u8>, ls: Seq<Seq<u32>>, got: Seq<Seq<u32>>)
    requires
        got.len() <= RMDB_MAXORDER,
        spelled(b, ls),
        ls.take(got.len() as int) == got,
    ensures
        ({
            let o = got.len() as int;
            let at = words(got).len() as int;
            &&& FREE_MAP + 4 * (at + 1 + ls[o].len()) <= b.len()
            &&& u32_at(b, FREE_MAP + 4 * at) == ls[o].len()
            &&& forall|i: int|
                #![trigger ls[o][i]]
                0 <= i < ls[o].len() ==> u32_at(b, FREE_MAP + 4 * (at + 1 + i)) == ls[o][i]
        }),
{
    let o = got.len() as int;
    let at = words(got).len() as int;
    lemma_words_at(ls, o);
    lemma_blocks_bound(ls);
    assert(words(ls)[at] == ls[o].len() as u32);
    assert forall|i: int| #![trigger ls[o][i]] 0 <= i < ls[o].len() implies u32_at(
        b,
        FREE_MAP + 4 * (at + 1 + i),
    ) == ls[o][i] by {
        assert(words(ls)[at + 1 + i] == ls[o][i]);
    }
}

/// A map of some lists, with the numbers of one more behind.
proof fn lemma_spells_more(b: Seq<u8>, got: Seq<Seq<u32>>, list: Seq<u32>)
    requires
        got.len() > 0 ==> spells(b, got),
        list.len() <= u32::MAX,
        FREE_MAP + 4 * (words(got).len() + 1 + list.len()) <= b.len(),
        u32_at(b, FREE_MAP + 4 * words(got).len()) == list.len(),
        forall|k: int|
            0 <= k < list.len() ==> #[trigger] list[k] == u32_at(
                b,
                FREE_MAP + 4 * (words(got).len() + 1 + k),
            ),
    ensures
        spells(b, got.push(list)),
        words(got.push(list)).len() == words(got).len() + 1 + list.len(),
{
    let ls = got.push(list);
    assert(ls.drop_last() =~= got);
    let at = words(got).len() as int;
    assert forall|k: int| #![trigger words(ls)[k]] 0 <= k < words(ls).len() implies u32_at(
        b,
        FREE_MAP + 4 * k,
    ) == words(ls)[k] by {
        if k < at {
            assert(words(ls)[k] == words(got)[k]);
        } else if k > at {
            assert(words(ls)[k] == list[k - at - 1]);
        }
    }
}

/// Writes the lists over the map.
fn fill_map(buf: &mut Vec<u8>, lists: &Vec<Vec<u32>>)
    requires
        FREE_MAP + 4 * words(lists_view(lists@)).len() <= old(buf).len(),
        num_blocks(lists_view(lists@)) <= u32::MAX,
    ensures
        final(buf).len() == old(buf).len(),
        spells(final(buf)@, lists_view(lists@)),
        forall|j: int| 0 <= j < FREE_MAP ==> #[trigger] final(buf)[j] == old(buf)[j],
{
    let ghost ls = lists_view(lists@);
    let mut ptr: usize = FREE_MAP;
    let mut o: usize = 0;
    assert(ls.take(0) =~= Seq::empty());
    while o < lists.len()
        invariant
            ls == lists_view(lists@),
            o <= lists.len(),
            num_blocks(ls) <= u32::MAX,
            buf.len() == old(buf).len(),
            FREE_MAP + 4 * words(ls).len() <= buf.len(),
            ptr == FREE_MAP + 4 * words(ls.take(o as int)).len(),
            forall|j: int| 0 <= j < FREE_MAP ==> #[trigger] buf[j] == old(buf)[j],
            forall|k: int|
                #![trigger words(ls)[k]]
                0 <= k < words(ls.take(o as int)).len() ==> u32_at(buf@, FREE_MAP + 4 * k) == words(
                    ls,
                )[k],
        decreases lists.len() - o,
    {
        let ghost at = words(ls.take(o as int)).len() as int;
        let ghost b0 = buf@;
        proof {
            lemma_words_at(ls, o as int);
            lemma_blocks_bound(ls);
            assert(ls[o as int] == lists[o as int]@);
            lemma_le32(b0, ptr as int, lists[o as int].len() as u32);
        }
        put_u32(buf, ptr, lists[o].len() as u32);
        proof {
            lemma_kept(b0, buf@, ls, at, ls[o as int].len() as u32);
        }
        ptr = ptr + PTRSZ;
        let mut i: usize = 0;
        while i < lists[o].len()
            invariant
                ls == lists_view(lists@),
                o < lists.len(),
                ls[o as int] == lists[o as int]@,
                i <= lists[o as int].len(),
                buf.len() == old(buf).len(),
                FREE_MAP + 4 * words(ls).len() <= buf.len(),
                at + 1 + ls[o as int].len() <= words(ls).len(),
                at >= 0,
                ptr == FREE_MAP + 4 * (at + 1 + i),
                forall|j: int|
                    #![trigger ls[o as int][j]]
                    0 <= j < ls[o as int].len() ==> words(ls)[at + 1 + j] == ls[o as int][j],
                forall|j: int| 0 <= j < FREE_MAP ==> #[trigger] buf[j] == old(buf)[j],
                forall|k: int|
                    #![trigger words(ls)[k]]
                    0 <= k < at + 1 + i ==> u32_at(buf@, FREE_MAP + 4 * k) == words(ls)[k],
            decreases lists[o as int].len() - i,
        {
            let ghost b1 = buf@;
            proof {
                assert(words(ls)[at + 1 + i] == ls[o as int][i as int]);
                lemma_le32(b1, ptr as int, lists[o as int][i as int]);
            }
            put_u32(buf, ptr, lists[o][i]);
            proof {
                lemma_kept(b1, buf@, ls, at + 1 + i, lists[o as int][i as int]);
            }
            ptr = ptr + PTRSZ;
            i = i + 1;
        }
        o = o + 1;
    }
    assert(ls.take(o as int) =~= ls);
}

/// A number that is written behind others leaves them.
proof fn lemma_kept(a: Seq<u8>, b: Seq<u8>, ls: Seq<Seq<u32>>, n: int, v: u32)
    requires
        0 <= n < words(ls).len(),
        FREE_MAP + 4 * words(ls).len() <= a.len(),
        b == splice(a, FREE_MAP + 4 * n, le32(v)),
        v == words(ls)[n],
        forall|k: int|
            #![trigger words(ls)[k]]
            0 <= k < n ==> u32_at(a, FREE_MAP + 4 * k) == words(ls)[k],
    ensures
        forall|k: int|
            #![trigger words(ls)[k]]
            0 <= k < n + 1 ==> u32_at(b, FREE_MAP + 4 * k) == words(ls)[k],
        forall|j: int| 0 <= j < FREE_MAP ==> #[trigger] b[j] == a[j],
        b.len() == a.len(),
{
    lemma_le32(a, FREE_MAP + 4 * n, v);
    assert forall|k: int| #![trigger words(ls)[k]] 0 <= k < n + 1 implies u32_at(b, FREE_MAP + 4 * k)
        == words(ls)[k] by {
        if k < n {
            let p = FREE_MAP + 4 * k;
            assert(b[p] == a[p] && b[p + 1] == a[p + 1] && b[p + 2] == a[p + 2] && b[p + 3] == a[p
                + 3]);
        }
    }
}

/// The root that page 0 names.
pub open spec fn root_of(img: Seq<u8>, lay: Layout) -> int {
    u32_at(page(img, lay.ps(), 0), RMDB_P_ROOT as int)
}

/// The first page of the map that page 0 names.
pub open spec fn map_page(img: Seq<u8>, lay: Layout) -> int {
    u32_at(page(img, lay.ps(), 0), RMDB_P_FREEPAGES as int)
}

/// The number of pages of the map that page 0 names.
pub open spec fn map_pages(img: Seq<u8>, lay: Layout) -> int {
    u32_at(page(img, lay.ps(), 0), RMDB_P_FREESIZE as int)
}

/// How many bytes the map at page `fp` says its numbers take.
pub open spec fn map_size(img: Seq<u8>, lay: Layout, fp: int) -> int {
    u32_at(page(img, lay.ps(), fp), FREE_MAP_SIZE as int)
}

/// The bytes of the map at page `fp`.
pub open spec fn map_bytes(img: Seq<u8>, lay: Layout, fp: int) -> Seq<u8> {
    run(img, lay.ps(), fp, FREE_MAP + map_size(img, lay, fp))
}

/// Whether the map at page `fp` is within the image.
pub open spec fn map_fits(img: Seq<u8>, lay: Layout, fp: int, fs: int) -> bool {
    &&& 1 <= fs
    &&& fp + fs - 1 <= u32::MAX
    &&& in_img(img, lay.ps(), fp)
    &&& in_img(img, lay.ps(), fp + fs - 1)
    &&& base_of(lay.ps(), fp) + FREE_MAP + map_size(img, lay, fp) <= img.len()
}

/// Whether what is read of the map at page `fp` is within the image. A map of no pages has
/// its hash in the page before it.
pub open spec fn map_there(img: Seq<u8>, lay: Layout, fp: int, fs: int) -> bool {
    &&& in_img(img, lay.ps(), fp)
    &&& base_of(lay.ps(), fp) + FREE_MAP + map_size(img, lay, fp) <= img.len()
    &&& lay.flags.integrity() ==> 0 <= fp + fs - 1 <= u32::MAX && in_img(
        img,
        lay.ps(),
        fp + fs - 1,
    )
}

/// Whether the last page of the map ends in the hash of the map, where it has one.
pub open spec fn map_sealed(img: Seq<u8>, lay: Layout, fp: int, fs: int) -> bool {
    lay.flags.integrity() ==> page(img, lay.ps(), fp + fs - 1).subrange(
        lay.payload as int,
        lay.ps(),
    ) == sha256(map_bytes(img, lay, fp))
}

/// Whether the `fs` pages from `fp` on hold the map of the lists.
pub open spec fn map_at(
    img: Seq<u8>,
    lay: Layout,
    fp: int,
    fs: int,
    ls: Seq<Seq<u32>>,
) -> bool {
    &&& 1 <= fp
    &&& map_fits(img, lay, fp, fs)
    &&& FREE_MAP + map_size(img, lay, fp) <= (fs - 1) * lay.ps() + lay.payload
    &&& spells(map_bytes(img, lay, fp), ls)
    &&& map_sealed(img, lay, fp, fs)
}

/// Whether the lists, which name `free` pages, are those of the map that page 0 names.
pub open spec fn map_reads(img: Seq<u8>, lay: Layout, ls: Seq<Seq<u32>>, free: u32) -> bool {
    let fp = map_page(img, lay);
    let fs = map_pages(img, lay);
    &&& map_there(img, lay, fp, fs)
    &&& map_sealed(img, lay, fp, fs)
    &&& spelled(map_bytes(img, lay, fp), ls)
    &&& free == total(ls)
    &&& forall|l: Seq<Seq<u32>>| #[trigger] spelled(map_bytes(img, lay, fp), l) ==> l == ls
}

/// Whether the map that page 0 names cannot be read, and the error tells why.
pub open spec fn map_fails(img: Seq<u8>, lay: Layout, e: RmdbError) -> bool {
    let fp = map_page(img, lay);
    let fs = map_pages(img, lay);
    if map_there(img, lay, fp, fs) && !map_sealed(img, lay, fp, fs) {
        e is IntegrityCheck
    } else {
        e is InvalidDBFile && (map_there(img, lay, fp, fs) ==> !is_map(map_bytes(img, lay, fp)))
    }
}

/// Reads the map that page 0 names: the lists of free pages, and how many pages they name.
pub(crate) fn read_map(img: &Vec<u8>, lay: Layout) -> (r: Result<(Vec<Vec<u32>>, u32), RmdbError>)
    requires
        lay.sane(),
        in_img(img@, lay.ps(), 0),
    ensures
        match r {
            Ok((lists, free)) => map_reads(img@, lay, lists_view(lists@), free),
            Err(e) => map_fails(img@, lay, e),
        },
{
    let ps: usize = lay.pagesize;
    let pl: usize = lay.payload;
    let buf: &[u8] = img.as_slice();
    let fpptr: u32 = get_u32(buf, ps, 0, RMDB_P_FREEPAGES);
    let curpages: u32 = get_u32(buf, ps, 0, RMDB_P_FREESIZE);
    if !page_in(buf, ps, fpptr) {
        return Err(RmdbError::InvalidDBFile);
    }
    let cursize: u32 = get_u32(buf, ps, fpptr, FREE_MAP_SIZE);
    let _len: usize = buf.len();
    assert(0 <= base_of(lay.ps(), fpptr as int)) by (nonlinear_arith)
        requires
            base_of(lay.ps(), fpptr as int) == fpptr * lay.ps(),
            lay.ps() >= 0,
    ;
    if cursize as usize > usize::MAX - FREE_MAP {
        return Err(RmdbError::InvalidDBFile);
    }
    let len: usize = FREE_MAP + cursize as usize;
    let freemap: &[u8] = match run_bytes(buf, ps, fpptr, len) {
        Some(freemap) => freemap,
        None => {
            return Err(RmdbError::InvalidDBFile);
        },
    };
    if lay.flags.contains(RmdbFlags::PAGE_INTEGRITY) {
        let end: u64 = fpptr as u64 + curpages as u64;
        if end == 0 || end > 0x1_0000_0000 {
            return Err(RmdbError::InvalidDBFile);
        }
        let lastpage: u32 = (end - 1) as u32;
        if !page_in(buf, ps, lastpage) {
            return Err(RmdbError::InvalidDBFile);
        }
        let hash: [u8; 32] = hash_of(freemap);
        if !same_bytes(page_bytes(buf, ps, lastpage, pl, ps), hash.as_slice()) {
            return Err(RmdbError::IntegrityCheck);
        }
    }
    parse_lists(freemap)
}

/// An image with the same pages has the same map.
pub proof fn lemma_map_frame(
    a: Seq<u8>,
    b: Seq<u8>,
    lay: Layout,
    fp: int,
    fs: int,
    ls: Seq<Seq<u32>>,
)
    requires
        map_at(a, lay, fp, fs, ls),
        lay.sane(),
        forall|p: int| fp <= p < fp + fs ==> #[trigger] same_page(a, b, lay.ps(), p),
    ensures
        map_at(b, lay, fp, fs, ls),
{
    let ps = lay.ps();
    assert(same_page(a, b, ps, fp));
    assert(same_page(a, b, ps, fp + fs - 1));
    let len = FREE_MAP + map_size(a, lay, fp);
    assert((fs - 1) * ps + ps == fs * ps) by (nonlinear_arith);
    lemma_page_len(a, ps, fp);
    lemma_run_same(a, b, ps, fp, fs, len);
    lemma_run_fits(b, ps, fp, fs, len);
}

/// How many pages a map of so many blocks takes.
pub open spec fn map_span(lay: Layout, blocks: int) -> int {
    (FREE_MAP + PTRSZ * (RMDB_MAXORDER + 1 + blocks) + lay.ps() - lay.payload + lay.ps() - 1)
        / lay.ps()
}

/// Whether there is room for the map of all pages that the database may come to have
/// when the map is written.
pub open spec fn room_for_map(np: int, ps: int) -> bool {
    &&& 8 * np + 0x50000 <= u32::MAX
    &&& (2 * np + 101) * ps <= usize::MAX
}

/// A page is no longer than the least page size: more pages are not needed for `x` bytes.
proof fn lemma_pages_for(x: int, ps: int)
    requires
        x >= 1,
        ps >= 128,
    ensures
        1 <= (x + ps - 1) / ps <= (x + 127) / 128,
        x <= ((x + ps - 1) / ps) * ps,
{
    let n = (x + ps - 1) / ps;
    assert(1 <= n && n * ps <= x + ps - 1 && x <= n * ps) by (nonlinear_arith)
        requires
            n == (x + ps - 1) / ps,
            x >= 1,
            ps >= 128,
    ;
    assert((n - 1) * 128 <= (n - 1) * ps) by (nonlinear_arith)
        requires
            n >= 1,
            ps >= 128,
    ;
    assert((n - 1) * ps == n * ps - ps) by (nonlinear_arith);
}

/// Lists without a block, one for each order.
fn empty_lists() -> (r: Vec<Vec<u32>>)
    ensures
        r.len() == RMDB_MAXORDER + 1,
        forall|o: int| 0 <= o < r.len() ==> (#[trigger] r[o])@.len() == 0,
{
    let mut lists: Vec<Vec<u32>> = Vec::new();
    while lists.len() < RMDB_MAXORDER + 1
        invariant
            lists.len() <= RMDB_MAXORDER + 1,
            forall|o: int| 0 <= o < lists.len() ==> (#[trigger] lists[o])@.len() == 0,
        decreases RMDB_MAXORDER + 1 - lists.len(),
    {
        lists.push(Vec::new());
    }
    lists
}

/// Lists with one block of each order below `n`, from page 1 on.
pub open spec fn rising(n: int) -> Seq<Seq<u32>> {
    Seq::new(
        (RMDB_MAXORDER + 1) as nat,
        |o: int|
            if o < n {
                seq![pow2(o as nat) as u32]
            } else {
                Seq::empty()
            },
    )
}

/// Such lists are neat.
proof fn lemma_rising_neat(n: int)
    requires
        n <= 32,
    ensures
        neat(rising(n)),
{
    let ls = rising(n);
    vstd::arithmetic::power2::lemma2_to64();
    assert forall|o: int, i: int| #[trigger] listed(ls, o, i) implies ls[o][i] as int % pow2(o as nat) as int
        == 0 && (o < RMDB_MAXORDER ==> !among(ls[o], buddy(ls[o][i] as int, o))) by {
        lemma_pow2_pos(o as nat);
        lemma_pow2_unfold((o + 1) as nat);
        lemma_pow2_le(o as nat, 31);
        assert(ls[o][i] == pow2(o as nat));
        vstd::arithmetic::div_mod::lemma_mod_self_0(pow2(o as nat) as int);
        vstd::arithmetic::div_mod::lemma_small_mod(pow2(o as nat), pow2((o + 1) as nat));
    }
}

/// The lists of a new database of `np` pages: up to half of the pages in blocks of
/// ascending order, the others in blocks of descending order.
pub open spec fn fresh_lists(np: int) -> Seq<Seq<u32>> {
    let k = order_of(np) - 1;
    let half = pow2(k as nat) as int;
    spread(rising(k), half, np - half, order_of(np - half))
}

/// How many pages a new database has that is made with `np`: more where the map of free
/// pages does not find room.
pub open spec fn first_pages(lay: Layout, np: int) -> int {
    let ls = less_pages(fresh_lists(np), 1, 0);
    let n = map_span(lay, num_blocks(ls) as int + 64);
    if n <= np - 2 && has_order(ls, order_of(n)) {
        np
    } else {
        grown(np + pow2(order_of(n) as nat))
    }
}

impl RmdbWr {
    /// Lists all pages but page 0 as free: up to half of them in blocks of ascending
    /// order, the others in blocks of descending order.
    pub(crate) fn init_free_pages_map(&mut self)
        requires
            2 <= old(self).num_pages <= usize::MAX / 2 + 1,
        ensures
            final(self).num_pages == old(self).num_pages,
            final(self).mmap == old(self).mmap,
            lists_ok(final(self).ls(), old(self).num_pages as int),
            forall|p: int|
                #![trigger in_free(final(self).ls(), p)]
                in_free(final(self).ls(), p) <==> 1 <= p < old(self).num_pages,
            final(self).freepages.free == old(self).num_pages - 1,
            total(final(self).ls()) == old(self).num_pages - 1,
            num_blocks(final(self).ls()) <= 64,
            final(self).ls() == fresh_lists(old(self).num_pages as int),
            neat(final(self).ls()),
    {
        let np: u32 = self.num_pages;
        let mut free: RmdbFreePages = RmdbFreePages { lists: empty_lists(), free: 0 };
        let order: usize = size_to_order(np as usize);
        let mut pnum: u32 = 1;
        let mut o: usize = 0;
        proof {
            vstd::arithmetic::power2::lemma2_to64();
            if order == 0 {
                assert(pow2(0) == 1);
            }
            if order > 32 {
                lemma_pow2_le(32, (order - 1) as nat);
            }
            assert forall|k: int| 0 <= k < free.ls().len() implies (#[trigger] free.ls()[k]).len()
                == 0 by {
                assert(free.ls()[k] == free.lists[k]@);
            }
            crate::blocks::lemma_total_zero(free.ls());
            lemma_blocks_bound(free.ls());
            assert forall|p: int| !in_free(free.ls(), p) by {}
            assert(pow2((order - 1) as nat) < np);
        }
        while o + 1 < order
            invariant
                1 <= order <= 32,
                o < order,
                np == self.num_pages,
                np <= usize::MAX / 2 + 1,
                *self == *old(self),
                pnum == pow2(o as nat),
                pow2((order - 1) as nat) < np,
                lists_ok(free.ls(), np as int),
                forall|k: int| o <= k < 32 ==> (#[trigger] free.ls()[k]).len() == 0,
                forall|p: int|
                    #![trigger in_free(free.ls(), p)]
                    in_free(free.ls(), p) <==> 1 <= p < pnum,
                total(free.ls()) == pnum - 1,
                num_blocks(free.ls()) == o,
                forall|k: int| 0 <= k < o ==> #[trigger] free.ls()[k] == seq![pow2(k as nat) as u32],
                free.free == 0,
            decreases order - o,
        {
            let ghost ls = free.ls();
            proof {
                lemma_pow2_unfold((o + 1) as nat);
                lemma_pow2_pos(o as nat);
                lemma_pow2_le((o + 1) as nat, (order - 1) as nat);
                crate::blocks::lemma_with_block(ls, np as int, o as int, 0, pnum);
            }
            assert(ls[o as int] == free.lists[o as int]@);
            free.lists[o].push(pnum);
            proof {
                assert(free.ls() =~= with_block(ls, o as int, 0, pnum)) by {
                    assert(free.ls()[o as int] =~= ls[o as int].insert(0, pnum));
                }
                assert(free.ls()[o as int] =~= seq![pnum]);
                assert forall|k: int| 0 <= k < o + 1 implies #[trigger] free.ls()[k] == seq![
                    pow2(k as nat) as u32,
                ] by {
                    if k < o {
                        assert(free.ls()[k] == ls[k]);
                    }
                }
            }
            pnum = pnum + order_to_size(o) as u32;
            o = o + 1;
        }
        let rest: u32 = np - pnum;
        proof {
            lemma_order_of(np as int, order as int);
            assert forall|k: int| 0 <= k < 32 implies #[trigger] free.ls()[k] == rising(
                order - 1,
            )[k] by {
                if k >= order - 1 {
                    assert(free.ls()[k] =~= Seq::empty());
                }
            }
            assert(free.ls() =~= rising(order - 1));
            lemma_rising_neat(order - 1);
            lemma_order_exists(rest as int);
            lemma_pow2_unfold(order as nat);
            let a = order_of(rest as int);
            if a > order - 1 {
                assert(pow2((order - 1) as nat) < rest);
            }
            vstd::arithmetic::power2::lemma_pow2_adds((order - 1 - a) as nat, a as nat);
            lemma_pow2_pos(a as nat);
            vstd::arithmetic::div_mod::lemma_mod_multiples_basic(
                pow2((order - 1 - a) as nat) as int,
                pow2(a as nat) as int,
            );
        }
        match free.put_range(pnum, rest, Ghost(np as int)) {
            Ok(_) => {},
            Err(_) => {
                assert(false);
            },
        }
        free.free = np - 1;
        self.freepages = free;
    }

    /// Takes the lists of free pages from the map that page 0 names.
    pub(crate) fn get_free_pages_map(&mut self, lay: Layout) -> (r: Result<(), RmdbError>)
        requires
            lay.sane(),
            in_img(old(self).mmap@, lay.ps(), 0),
        ensures
            final(self).num_pages == old(self).num_pages,
            final(self).mmap == old(self).mmap,
            match r {
                Ok(_) => map_reads(
                    old(self).mmap@,
                    lay,
                    final(self).ls(),
                    final(self).freepages.free,
                ),
                Err(e) => *final(self) == *old(self) && map_fails(old(self).mmap@, lay, e),
            },
    {
        match read_map(&self.mmap, lay) {
            Ok((lists, free)) => {
                self.freepages.lists = lists;
                self.freepages.free = free;
                assert(self.ls() =~= lists_view(lists@));
                Ok(())
            },
            Err(e) => Err(e),
        }
    }

    /// How many bytes the numbers of the lists take.
    fn map_need(&self) -> (r: usize)
        requires
            4 * total(self.ls()) + 2000 <= u32::MAX,
            self.ls().len() == RMDB_MAXORDER + 1,
        ensures
            r == 4 * words(self.ls()).len(),
            r == 4 * (self.ls().len() + num_blocks(self.ls())),
    {
        let ghost ls = self.ls();
        let mut bytesize: usize = 0;
        let mut o: usize = 0;
        proof {
            lemma_words_len(ls);
            lemma_blocks_bound(ls);
            assert(ls.take(0) =~= Seq::empty());
        }
        while o < self.freepages.lists.len()
            invariant
                ls == self.ls(),
                o <= self.freepages.lists.len(),
                4 * total(ls) + 2000 <= u32::MAX,
                ls.len() == RMDB_MAXORDER + 1,
                bytesize == 4 * words(ls.take(o as int)).len(),
                words(ls).len() == ls.len() + num_blocks(ls),
                num_blocks(ls) <= total(ls),
            decreases self.freepages.lists.len() - o,
        {
            proof {
                lemma_words_at(ls, o as int);
                assert(ls[o as int] == self.freepages.lists[o as int]@);
            }
            bytesize = bytesize + (1 + self.freepages.lists[o].len()) * PTRSZ;
            o = o + 1;
        }
        assert(ls.take(o as int) =~= ls);
        bytesize
    }

    /// Whether the `n` pages from `a` on are pages of the database that are not free.
    pub open spec fn taken(self, a: int, n: int) -> bool {
        n > 0 ==> {
            &&& 1 <= a
            &&& a + n <= self.num_pages
            &&& forall|p: int| a <= p < a + n ==> !#[trigger] in_free(self.ls(), p)
        }
    }

    /// Whether `self` came from `w` by growth, by giving back the `n0` pages from `a0` on,
    /// and by taking the `n` pages from `a` on, none of which was in use.
    pub open spec fn moved(self, w: RmdbWr, a0: int, n0: int, a: int, n: int) -> bool {
        &&& self.num_pages >= w.num_pages
        &&& a + n <= a0 || a0 + n0 <= a || n0 == 0
        &&& forall|p: int|
            a <= p < a + n ==> #[trigger] in_free(w.ls(), p) || w.num_pages <= p < self.num_pages
        &&& forall|p: int|
            #![trigger in_free(self.ls(), p)]
            #![trigger in_free(w.ls(), p)]
            in_free(self.ls(), p) <==> (in_free(w.ls(), p) || w.num_pages <= p < self.num_pages
                || a0 <= p < a0 + n0) && !(a <= p < a + n)
    }

    /// How many pages a map of `bytesize` bytes takes.
    fn map_pages_for(lay: Layout, bytesize: usize) -> (r: u32)
        requires
            lay.ok(),
            bytesize + 0x48000 <= u32::MAX,
        ensures
            1 <= r <= (bytesize + 40 + 127) / 128,
            FREE_MAP + bytesize <= (r - 1) * lay.ps() + lay.payload,
            FREE_MAP + bytesize <= lay.payload ==> r == 1,
            r == (FREE_MAP + bytesize + lay.ps() - lay.payload + lay.ps() - 1) / lay.ps(),
    {
        let ps: usize = lay.pagesize;
        let overhead: usize = FREE_MAP + ps - lay.payload;
        proof {
            let x = bytesize + overhead;
            lemma_pages_for(x, ps as int);
            let n = (x + ps - 1) / ps as int;
            assert((n - 1) * ps == n * ps - ps) by (nonlinear_arith);
            if x <= ps {
                assert(n < 2) by (nonlinear_arith)
                    requires
                        n == (x + ps - 1) / ps as int,
                        x <= ps,
                        ps >= 1,
                ;
            }
        }
        size_to_pages(ps, bytesize + overhead)
    }

    /// Whether a first map, whatever getting a page for it adds, takes one page, and there
    /// is one.
    pub open spec fn small_map(self, lay: Layout) -> bool {
        &&& self.freepages.free >= 1
        &&& FREE_MAP + PTRSZ * (RMDB_MAXORDER + 1 + num_blocks(self.ls()) + 64) <= lay.payload
    }

    /// Finds pages for the map, and gives back those that it had. Both change the lists, and
    /// so what the map needs: enough pages are taken for whatever they add.
    fn place_map(&mut self, lay: Layout, fpptr: u32, fpsize: u32) -> (r: (u32, u32, usize))
        requires
            old(self).ok(lay.ps()),
            lay.ok(),
            old(self).taken(fpptr as int, fpsize as int),
            room_for_map(old(self).num_pages as int, lay.ps()),
        ensures
            final(self).ok(lay.ps()),
            final(self).num_pages <= 2 * old(self).num_pages + 100,
            final(self).num_pages == old(self).pages_after(r.1 as int, order_of(r.1 as int), true),
            extends(old(self).mmap@, final(self).mmap@),
            final(self).mmap.len() == old(self).grown_len(lay.ps(), final(self).num_pages as int),
            r.1 == map_span(lay, num_blocks(old(self).ls()) + fpsize + 64),
            r.1 >= 1,
            final(self).taken(r.0 as int, r.1 as int),
            final(self).moved(*old(self), fpptr as int, fpsize as int, r.0 as int, r.1 as int),
            FREE_MAP + r.2 <= (r.1 - 1) * lay.ps() + lay.payload,
            4 * words(final(self).ls()).len() == r.2,
            r.2 <= u32::MAX,
            fpsize == 0 && old(self).small_map(lay) ==> final(self).num_pages == old(self).num_pages
                && final(self).mmap == old(self).mmap,
    {
        let ps: usize = lay.pagesize;
        let ghost w0 = *self;
        let ghost np = self.num_pages as int;
        proof {
            lemma_blocks_bound(w0.ls());
            lemma_total_bound(w0.ls(), np);
            lemma_words_len(w0.ls());
            assert(fpsize <= np);
        }
        let most: usize = self.map_need() + (fpsize as usize + 64) * PTRSZ;
        let n: u32 = Self::map_pages_for(lay, most);
        proof {
            assert((np + 2 * n + 8) * lay.ps() <= (2 * np + 101) * lay.ps()) by (nonlinear_arith)
                requires
                    np + 2 * n + 8 <= 2 * np + 101,
                    lay.ps() >= 0,
            ;
            if w0.freepages.free >= 1 {
                lemma_block_left(w0.ls());
            }
            lemma_order_exists(n as int);
        }
        let newptr: u32 = match self.get_free_pages(ps, n as usize, true) {
            Ok(vec) => {
                proof {
                    lemma_gone(w0, *self, vec@, n as int);
                }
                vec[0]
            },
            Err(_) => {
                assert(false);
                0
            },
        };
        let ghost w1 = *self;
        let mut freevec: Vec<u32> = Vec::new();
        let mut p: u32 = 0;
        while p < fpsize
            invariant
                p <= fpsize,
                *self == w1,
                fpsize > 0 ==> fpptr + fpsize <= np,
                np <= u32::MAX,
                freevec@ == run_of(fpptr, p as int),
            decreases fpsize - p,
        {
            freevec.push(fpptr + p);
            p = p + 1;
            assert(freevec@ =~= run_of(fpptr, p as int));
        }
        assert(freevec@ =~= run_of(fpptr, fpsize as int));
        proof {
            if fpsize > 0 {
                lemma_run(fpptr, fpsize as int);
            }
            assert forall|i: int| 0 <= i < freevec.len() implies 1 <= #[trigger] freevec[i]
                < w1.num_pages && !in_free(w1.ls(), freevec[i] as int) by {
                assert(among(freevec@, freevec[i] as int));
                assert(!in_free(w0.ls(), freevec[i] as int));
            }
        }
        match self.freepages.put_free_pages(&freevec, Ghost(self.num_pages as int)) {
            Ok(_) => {},
            Err(_) => {
                assert(false);
            },
        }
        proof {
            assert forall|q: int| among(freevec@, q) <==> fpptr <= q < fpptr + fpsize by {
                if fpsize > 0 {
                    assert(among(freevec@, q) <==> fpptr <= q < fpptr + fpsize);
                }
            }
            if fpsize > 0 {
                // a page in both runs was taken and free at once
                if !(newptr + n <= fpptr || fpptr + fpsize <= newptr) {
                    let q = if newptr >= fpptr {
                        newptr as int
                    } else {
                        fpptr as int
                    };
                    assert(in_free(w0.ls(), q) || w0.num_pages <= q < w1.num_pages);
                    assert(!in_free(w0.ls(), q));
                }
            }
            lemma_blocks_bound(self.ls());
            lemma_total_bound(self.ls(), self.num_pages as int);
            lemma_words_len(self.ls());
        }
        let bytesize: usize = self.map_need();
        (newptr, n, bytesize)
    }

    /// Writes the map over the `newsize` pages from `newptr` on.
    fn write_map(&mut self, lay: Layout, newptr: u32, newsize: u32, bytesize: usize)
        requires
            old(self).ok(lay.ps()),
            lay.ok(),
            newsize >= 1,
            old(self).taken(newptr as int, newsize as int),
            FREE_MAP + bytesize <= (newsize - 1) * lay.ps() + lay.payload,
            4 * words(old(self).ls()).len() <= bytesize,
            bytesize <= u32::MAX,
        ensures
            final(self).ok(lay.ps()),
            final(self).num_pages == old(self).num_pages,
            final(self).mmap.len() == old(self).mmap.len(),
            final(self).freepages == old(self).freepages,
            map_at(
                final(self).mmap@,
                lay,
                newptr as int,
                newsize as int,
                final(self).ls(),
            ),
            forall|p: int|
                !(newptr <= p < newptr + newsize) ==> #[trigger] same_page(
                    old(self).mmap@,
                    final(self).mmap@,
                    lay.ps(),
                    p,
                ),
    {
        let ps: usize = lay.pagesize;
        let pl: usize = lay.payload;
        let ghost ls = self.ls();
        let ghost img0 = self.mmap@;
        let ghost n = newsize as int;
        let ghost fp = newptr as int;
        let lastpage: u32 = newptr + (newsize - 1);
        let _all: usize = self.mmap.len();
        proof {
            assert((n - 1) * ps + ps == n * ps) by (nonlinear_arith);
            self.lemma_pages_in(ps as int, lastpage as int);
            self.lemma_pages_in(ps as int, fp);
            lemma_run_fits(img0, ps as int, fp, n, FREE_MAP + bytesize);
            lemma_blocks_bound(ls);
            lemma_total_bound(ls, self.num_pages as int);
            assert(0 <= fp * ps) by (nonlinear_arith)
                requires
                    fp >= 0,
                    ps >= 0,
            ;
        }
        let len: usize = FREE_MAP + bytesize;
        let mut buf: Vec<u8> = Vec::new();
        match run_bytes(self.mmap.as_slice(), ps, newptr, len) {
            Some(b) => {
                buf.extend_from_slice(b);
                assert(buf@.len() == len);
            },
            None => {
                assert(false);
                return ;
            },
        }
        put_u16(&mut buf, POS_PAGETYPE, PAGE_FREE);
        let ghost b1 = buf@;
        put_u32(&mut buf, FREE_MAP_SIZE, bytesize as u32);
        let ghost b2 = buf@;
        proof {
            lemma_le32(b1, FREE_MAP_SIZE as int, bytesize as u32);
        }
        fill_map(&mut buf, &self.freepages.lists);
        assert(lists_view(self.freepages.lists@) =~= ls);
        assert(u32_at(buf@, 4) == bytesize) by {
            assert(buf@[4] == b2[4] && buf@[5] == b2[5] && buf@[6] == b2[6] && buf@[7] == b2[7]);
        }
        set_run(&mut self.mmap, ps, newptr, buf.as_slice(), Ghost(n));
        let ghost img1 = self.mmap@;
        proof {
            lemma_run_head(img1, ps as int, fp, len as int);
            lemma_page_len(img1, ps as int, fp);
            assert(map_size(img1, lay, fp) == bytesize) by {
                let r = run(img1, ps as int, fp, len as int);
                let g = page(img1, ps as int, fp);
                assert(r[4] == g[4] && r[5] == g[5] && r[6] == g[6] && r[7] == g[7]);
            }
        }
        if lay.flags.contains(RmdbFlags::PAGE_INTEGRITY) {
            let hash: [u8; 32] = hash_of(buf.as_slice());
            set_bytes(&mut self.mmap, ps, lastpage, pl, hash.as_slice());
            proof {
                let img2 = self.mmap@;
                let last = lastpage as int;
                lemma_page_len(img1, ps as int, last);
                assert(page(img2, ps as int, last).subrange(0, pl as int) =~= page(
                    img1,
                    ps as int,
                    last,
                ).subrange(0, pl as int));
                assert(page(img2, ps as int, last).subrange(pl as int, ps as int) =~= hash@);
                assert(in_img(img2, ps as int, last));
                lemma_run_kept(img1, img2, ps as int, fp, n, len as int, pl as int);
                lemma_run_head(img2, ps as int, fp, len as int);
                assert(in_img(img2, ps as int, fp));
                assert(map_size(img2, lay, fp) == bytesize) by {
                    let r = run(img2, ps as int, fp, len as int);
                    let g = page(img2, ps as int, fp);
                    assert(r[4] == g[4] && r[5] == g[5] && r[6] == g[6] && r[7] == g[7]);
                }
                assert forall|p: int|
                    !(newptr <= p < newptr + newsize) implies #[trigger] same_page(
                    img0,
                    img2,
                    lay.ps(),
                    p,
                ) by {
                    assert(same_page(img0, img1, lay.ps(), p));
                    assert(same_page(img1, img2, lay.ps(), p));
                }
            }
        }
    }

    /// Writes the map of free pages to new pages, and lists the `fpsize` pages from `fpptr`
    /// on, where it was, as free. They keep their bytes.
    pub(crate) fn set_free_pages_map(&mut self, lay: Layout, fpptr: u32, fpsize: u32) -> (r: (
        u32,
        u32,
    ))
        requires
            old(self).ok(lay.ps()),
            lay.ok(),
            old(self).taken(fpptr as int, fpsize as int),
            room_for_map(old(self).num_pages as int, lay.ps()),
        ensures
            final(self).ok(lay.ps()),
            old(self).num_pages <= final(self).num_pages <= 2 * old(self).num_pages + 100,
            final(self).num_pages == old(self).pages_after(r.1 as int, order_of(r.1 as int), true),
            final(self).mmap.len() == old(self).grown_len(lay.ps(), final(self).num_pages as int),
            fpsize == 0 && old(self).small_map(lay) ==> final(self).num_pages == old(
                self,
            ).num_pages,
            r.1 == map_span(lay, num_blocks(old(self).ls()) + fpsize + 64),
            r.1 >= 1,
            final(self).taken(r.0 as int, r.1 as int),
            final(self).moved(*old(self), fpptr as int, fpsize as int, r.0 as int, r.1 as int),
            map_at(final(self).mmap@, lay, r.0 as int, r.1 as int, final(self).ls()),
            forall|p: int|
                0 <= p < old(self).num_pages && !(r.0 <= p < r.0 + r.1) ==> #[trigger] same_page(
                    old(self).mmap@,
                    final(self).mmap@,
                    lay.ps(),
                    p,
                ),
            forall|p: int|
                #![trigger in_free(final(self).ls(), p)]
                #![trigger in_free(old(self).ls(), p)]
                0 <= p < old(self).num_pages && !in_free(old(self).ls(), p) && !(fpptr <= p < fpptr
                    + fpsize) ==> !in_free(final(self).ls(), p) && !(r.0 <= p < r.0 + r.1)
                    && same_page(old(self).mmap@, final(self).mmap@, lay.ps(), p),
    {
        let ghost w0 = *self;
        let (newptr, newsize, bytesize) = self.place_map(lay, fpptr, fpsize);
        let ghost w1 = *self;
        self.write_map(lay, newptr, newsize, bytesize);
        proof {
            assert forall|p: int|
                0 <= p < w0.num_pages && !(newptr <= p < newptr + newsize) implies #[trigger] same_page(
                w0.mmap@,
                self.mmap@,
                lay.ps(),
                p,
            ) by {
                w0.lemma_pages_in(lay.ps(), p);
                lemma_extended(w0.mmap@, w1.mmap@, lay.ps(), p);
                assert(same_page(w1.mmap@, self.mmap@, lay.ps(), p));
            }
            assert forall|p: int|
                #![trigger in_free(self.ls(), p)]
                #![trigger in_free(w0.ls(), p)]
                0 <= p < w0.num_pages && !in_free(w0.ls(), p) && !(fpptr <= p < fpptr
                    + fpsize) implies !in_free(self.ls(), p) && !(newptr <= p < newptr + newsize)
                && same_page(w0.mmap@, self.mmap@, lay.ps(), p) by {
                assert(!in_free(w1.ls(), p));
                assert(same_page(w0.mmap@, self.mmap@, lay.ps(), p));
            }
        }
        (newptr, newsize)
    }
}

/// Where pages are free, there is a block.
pub(crate) proof fn lemma_block_left(ls: Seq<Seq<u32>>)
    requires
        total(ls) >= 1,
    ensures
        has_order(ls, 0),
        is_order(1, 0),
{
    vstd::arithmetic::power2::lemma2_to64();
    if !has_order(ls, 0) {
        crate::blocks::lemma_total_zero(ls);
    }
}

/// The pages that are given out in a row are pages of the database, free no more.
proof fn lemma_gone(w1: RmdbWr, w2: RmdbWr, res: Seq<u32>, n: int)
    requires
        w2.gave(w1, res),
        res.len() == n,
        n >= 1,
        res == run_of(res[0], n),
        lists_ok(w1.ls(), w1.num_pages as int),
        1 <= w1.num_pages,
    ensures
        w2.taken(res[0] as int, n),
        forall|q: int|
            res[0] <= q < res[0] + n ==> #[trigger] in_free(w1.ls(), q) || w1.num_pages <= q
                < w2.num_pages,
        forall|q: int|
            #![trigger in_free(w2.ls(), q)]
            #![trigger in_free(w1.ls(), q)]
            in_free(w2.ls(), q) <==> (in_free(w1.ls(), q) || w1.num_pages <= q < w2.num_pages)
                && !(res[0] <= q < res[0] + n),
        forall|q: int|
            #![trigger in_free(w2.ls(), q)]
            #![trigger in_free(w1.ls(), q)]
            0 <= q < w1.num_pages && !in_free(w1.ls(), q) ==> !in_free(w2.ls(), q) && !(res[0] <= q
                < res[0] + n),
{
    lemma_lists_wider(w1.ls(), w1.num_pages as int, w1.num_pages as int);
    assert forall|i: int| 0 <= i < n implies #[trigger] res[i] < w2.num_pages && 1 <= res[i] by {
        assert(in_free(w1.ls(), res[i] as int) || w1.num_pages <= res[i] < w2.num_pages);
    }
    lemma_row_end(res, n, w2.num_pages as int);
    lemma_run(res[0], n);
    assert forall|q: int|
        res[0] <= q < res[0] + n implies #[trigger] in_free(w1.ls(), q) || w1.num_pages <= q
        < w2.num_pages by {
        assert(among(res, q));
        let i = choose|i: int| 0 <= i < res.len() && #[trigger] res[i] == q;
        assert(in_free(w1.ls(), res[i] as int) || w1.num_pages <= res[i] < w2.num_pages);
    }
    assert forall|q: int|
        #![trigger in_free(w2.ls(), q)]
        #![trigger in_free(w1.ls(), q)]
        0 <= q < w1.num_pages && !in_free(w1.ls(), q) implies !in_free(w2.ls(), q) && !(res[0] <= q
        < res[0] + n) by {
        if res[0] <= q < res[0] + n {
            assert(among(res, q));
            let i = choose|i: int| 0 <= i < res.len() && #[trigger] res[i] == q;
            assert(in_free(w1.ls(), res[i] as int) || w1.num_pages <= res[i] < w2.num_pages);
        }
    }
}

/// Pages in a row that are all below a limit end below it.
pub proof fn lemma_row_end(res: Seq<u32>, n: int, lim: int)
    requires
        n >= 1,
        res.len() == n,
        res == run_of(res[0], n),
        forall|i: int| 0 <= i < n ==> #[trigger] res[i] < lim,
        lim <= u32::MAX,
    ensures
        res[0] + n <= lim,
{
    let a = res[0] as int;
    lemma_row_index(res, n, lim, n - 1);
}

/// The pages of a run follow one another.
proof fn lemma_row_index(res: Seq<u32>, n: int, lim: int, i: int)
    requires
        res.len() == n,
        res == run_of(res[0], n),
        forall|i: int| 0 <= i < n ==> #[trigger] res[i] < lim,
        lim <= u32::MAX,
        0 <= i < n,
    ensures
        res[i] == res[0] + i,
    decreases i,
{
    if i > 0 {
        lemma_row_index(res, n, lim, i - 1);
        assert(res[i - 1] < lim);
        assert(run_of(res[0], n)[i] == (res[0] + i) as u32);
    }
}

} // verus!
