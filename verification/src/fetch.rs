//! Reading: finding keys, following the order of keys, and getting at values.
use crate::bytes::{
    base_of, get_u16, get_u32, in_img, lemma_page_len, page, page_bytes, page_in, run, run_bytes,
    u16_at, u32_at,
};
use crate::error::RmdbError;
use crate::flags::RmdbFlags;
use crate::hash::{joined, same_bytes, sha256};
use crate::layout::{
    align, aligned, topptr, Layout, LEAF_KEYNUM, LEAF_KEYPTRS, LEAF_PL_KEY, NODE_FIRSTPTR,
    NODE_NUMPTRS, PAGE_LEAF, PAGE_NODE, POS_PAGETYPE, PTRSZ,
};
use crate::options::RMDB_INTGSIZE;
use crate::order::{lemma_lt_apart, lemma_lt_irreflexive, lemma_lt_transitive, lt, rank, Rank};
use crate::path::{
    below, good, is_key, last_node, last_probe, leads_to, lemma_below, lemma_depth, lemma_kid_pages,
    lemma_kid_sorted, lemma_kids_apart, lemma_no_gaps, lemma_outside, lemma_pick, lemma_pop,
    lemma_push, lemma_row, lemma_stands, lemma_trail_len, pick, slot, stands_at, too_big, too_small,
    trail, way,
};
use crate::tree::{
    before, distinct, entries, entries_of, far_data, far_len, height, holds, leads,
    lemma_distinct_sub, lemma_entries_at, lemma_holds_sub, lemma_put_entries, node_page, part,
    sorted, Tree,
};
use vstd::prelude::*;

verus! {

/// A view of the image from which pages are read.
pub struct RmdbFetch<'a> {
    pub lay: Layout,
    pub mmap: &'a [u8],
    pub rootpage: u32,
}

/// Page numbers as integers.
pub open spec fn nums(v: Seq<u32>) -> Seq<int> {
    v.map_values(|x: u32| x as int)
}

/// The page of the leaf with the key, where the tree has the key.
pub open spec fn leaf_no(t: Tree, key: Seq<u8>) -> int {
    if t is Leaf {
        t.pg()
    } else {
        last_node(t, key).kids()[slot(t, key)].pg()
    }
}

/// The leaf to which a search for a key that is there comes.
pub open spec fn leaf_of(t: Tree, key: Seq<u8>) -> Tree {
    last_node(t, key).kids()[slot(t, key)]
}

/// The leaf of a key is the one that has it.
pub(crate) proof fn lemma_leaf_no(
    img: Seq<u8>,
    lay: Layout,
    t: Tree,
    h: int,
    top: bool,
    q: Seq<int>,
    key: Seq<u8>,
)
    requires
        holds(img, lay, t, h, top),
        t is Node,
        sorted(entries(t)),
        leads(t, q),
        part(t, q) is Leaf,
        part(t, q)->key == key,
    ensures
        is_key(entries(t), key),
        leaf_of(t, key) == part(t, q),
        leaf_no(t, key) == part(t, q).pg(),
        last_node(t, key) == part(t, q.drop_last()),
    decreases t,
{
    let kids = t.kids();
    let leaf = part(t, q);
    let i = q[0];
    let rest = q.drop_first();
    let k = kids[i];
    lemma_no_gaps(img, lay, t, h, top);
    lemma_row(kids, key);
    lemma_below(kids, key);
    reveal_with_fuel(leads, 2);
    lemma_put_entries(k, rest, leaf);
    assert(entries(leaf) =~= seq![leaf.entry()]);
    let a = before(k, rest).len() as int;
    assert(entries(k)[a].0 == key);
    assert(is_key(entries(k), key));
    lemma_entries_at(kids, i);
    assert(entries(t)[entries_of(kids.take(i)).len() + a] == entries(k)[a]);
    let g = below(kids, key);
    let b = choose|b: int| 0 <= b < entries(kids[g]).len() && #[trigger] entries(kids[g])[b].0 == key;
    if i < g {
        lemma_kids_apart(kids, i, g, a, b);
        lemma_lt_irreflexive(key);
    } else if g < i {
        lemma_kids_apart(kids, g, i, b, a);
        lemma_lt_irreflexive(key);
    }
    assert(holds(img, lay, kids[0], h - 1, false));
    assert(holds(img, lay, k, h - 1, false));
    if kids[0] is Leaf {
        assert(k is Leaf);
        assert(rest.len() == 0);
        assert(q.drop_last() =~= Seq::empty());
    } else {
        lemma_pick(kids, key);
        lemma_kid_sorted(kids, i);
        if kids.len() == 1 {
            lemma_outside(entries(kids[0]), key);
        }
        lemma_leaf_no(img, lay, k, h - 1, false, rest, key);
        let w = way(k, key);
        assert(way(t, key) == seq![i] + w);
        assert((seq![i] + w).drop_first() =~= w);
        assert(last_node(t, key) == last_node(k, key));
        assert(q.drop_last().drop_first() =~= rest.drop_last());
        assert(part(t, q.drop_last()) == part(k, rest.drop_last()));
    }
}

/// What a search for `key` in the tree comes to: the page of its leaf, or whether the key
/// is before all keys of the tree, behind all of them, or between two.
pub open spec fn outcome(t: Tree, key: Seq<u8>, r: Result<u32, RmdbError>) -> bool {
    let es = entries(t);
    match r {
        Ok(leaf) => is_key(es, key) && leaf == leaf_no(t, key),
        Err(e) => {
            &&& !is_key(es, key)
            &&& if too_small(es, key) {
                e is KeyTooSmall
            } else if too_big(es, key) {
                e is KeyTooBig
            } else {
                e is KeyNotFound
            }
        },
    }
}

/// The nodes that a search for `key` passes in the tree.
pub open spec fn passed(t: Tree, key: Seq<u8>) -> Seq<int> {
    if t is Leaf {
        Seq::empty()
    } else {
        trail(t, way(t, key))
    }
}

/// The key of page `p` of the image, if the page is a leaf.
pub open spec fn key_in(img: Seq<u8>, lay: Layout, p: int) -> Option<Seq<u8>> {
    let pg = page(img, lay.ps(), p);
    let base = u16_at(pg, LEAF_KEYPTRS as int);
    let kl = u16_at(pg, base) % 0x8000;
    if in_img(img, lay.ps(), p) && u16_at(pg, 0) as u16 & PAGE_LEAF == PAGE_LEAF && u16_at(
        pg,
        LEAF_KEYNUM as int,
    ) == 1 && base % 2 == 0 && base + 2 <= lay.payload && base + 2 + kl <= lay.payload {
        Some(pg.subrange(base + 2, base + 2 + kl))
    } else {
        None
    }
}

/// Where the cell of page `p`, a leaf, has its value, or what says where that is.
pub open spec fn cell_data(img: Seq<u8>, lay: Layout, p: int) -> int {
    let pg = page(img, lay.ps(), p);
    let base = u16_at(pg, LEAF_KEYPTRS as int);
    aligned(base + 2 + u16_at(pg, base) % 0x8000)
}

/// Whether page `p`, a leaf, has its value in other pages.
pub open spec fn is_far(img: Seq<u8>, lay: Layout, p: int) -> bool {
    let pg = page(img, lay.ps(), p);
    u16_at(pg, u16_at(pg, LEAF_KEYPTRS as int)) >= 0x8000
}

/// The value of page `p`, a leaf, if it is within the image.
pub open spec fn value_in(img: Seq<u8>, lay: Layout, p: int) -> Option<Seq<u8>> {
    let pg = page(img, lay.ps(), p);
    let dp = cell_data(img, lay, p);
    if is_far(img, lay, p) {
        let first = u32_at(pg, dp + 4);
        let n = u32_at(pg, dp);
        if dp + far_len(lay) <= lay.payload && base_of(lay.ps(), first) + n <= img.len() {
            Some(run(img, lay.ps(), first, n))
        } else {
            None
        }
    } else {
        let n = u16_at(pg, dp);
        if dp + 2 + n <= lay.payload {
            Some(pg.subrange(dp + 2, dp + 2 + n))
        } else {
            None
        }
    }
}

/// Whether page `p`, a leaf, has the right hash of a value in other pages.
pub open spec fn sum_in(img: Seq<u8>, lay: Layout, p: int, val: Seq<u8>) -> bool {
    let dp = cell_data(img, lay, p);
    is_far(img, lay, p) && lay.flags.integrity() ==> page(img, lay.ps(), p).subrange(
        dp + 8,
        dp + 40,
    ) == sha256(val)
}

/// What a search comes to, whatever the image holds.
pub enum Hit {
    /// A leaf has the key. The chain of pages leads to it.
    At(Seq<int>),
    /// The key comes before all that was looked at.
    Small,
    /// The key comes behind all that was looked at.
    Big,
    /// The key would be between others, and is not there.
    Missing,
    /// A page is not what it has to be.
    Broken,
}

/// What a search below a child of page `p` comes to, seen from `p`.
pub open spec fn by_way_of(p: int, x: Hit) -> Hit {
    match x {
        Hit::At(c) => Hit::At(seq![p] + c),
        _ => x,
    }
}

/// Whether a result tells of what a search came to, and `now` is `was` with the pages on
/// the way to the leaf behind it.
pub open spec fn hits(r: Result<u32, RmdbError>, x: Hit, was: Seq<u32>, now: Seq<u32>) -> bool {
    match x {
        Hit::At(c) => r matches Ok(leaf) && nums(now).push(leaf as int) == nums(was) + c && c.len()
            > 0,
        Hit::Small => r matches Err(e) && e is KeyTooSmall,
        Hit::Big => r matches Err(e) && e is KeyTooBig,
        Hit::Missing => r matches Err(e) && e is KeyNotFound,
        Hit::Broken => r matches Err(e) && e is InvalidMetadata,
    }
}

/// What a search below page `p` comes to, a leaf or a node.
pub open spec fn page_search(
    img: Seq<u8>,
    lay: Layout,
    root: int,
    p: int,
    key: Seq<u8>,
    fuel: nat,
) -> Hit
    decreases fuel, 2nat, 0nat,
{
    match key_in(img, lay, p) {
        Some(k) => if key == k {
            Hit::At(seq![p])
        } else if lt(key, k) {
            Hit::Small
        } else {
            Hit::Big
        },
        None => if in_img(img, lay.ps(), p) && u16_at(page(img, lay.ps(), p), 0) as u16 & PAGE_LEAF
            != PAGE_LEAF {
            node_search(img, lay, root, p, key, fuel)
        } else {
            Hit::Broken
        },
    }
}

/// What a search below the node `p` comes to, where 0 stands for the root: the first child
/// is looked at, then the last, then those between, each time in the middle.
pub open spec fn node_search(
    img: Seq<u8>,
    lay: Layout,
    root: int,
    p: int,
    key: Seq<u8>,
    fuel: nat,
) -> Hit
    decreases fuel, 1nat, 0nat,
{
    let start = if p == 0 {
        root
    } else {
        p
    };
    let pg = page(img, lay.ps(), start);
    let n = u16_at(pg, NODE_NUMPTRS as int);
    if start == 0 {
        Hit::Missing
    } else if fuel == 0 || !in_img(img, lay.ps(), start) || u16_at(pg, 0) as u16 & PAGE_NODE
        != PAGE_NODE {
        Hit::Broken
    } else if n == 0 {
        Hit::Missing
    } else {
        let head = page_search(img, lay, root, u32_at(pg, topptr(0)), key, (fuel - 1) as nat);
        let tail = page_search(img, lay, root, u32_at(pg, topptr(n - 1)), key, (fuel - 1) as nat);
        if head !is Big {
            by_way_of(start, head)
        } else if n == 1 {
            Hit::Big
        } else if topptr(n) > lay.payload {
            Hit::Broken
        } else if tail !is Small {
            by_way_of(start, tail)
        } else if n == 2 {
            Hit::Missing
        } else {
            by_way_of(start, middle_search(img, lay, root, pg, key, 1, n - 2, fuel))
        }
    }
}

/// What a search among the children `lo` to `hi` of a node comes to.
pub open spec fn middle_search(
    img: Seq<u8>,
    lay: Layout,
    root: int,
    pg: Seq<u8>,
    key: Seq<u8>,
    lo: int,
    hi: int,
    fuel: nat,
) -> Hit
    decreases fuel, 0nat, hi - lo + 1,
{
    if lo > hi || fuel == 0 {
        Hit::Missing
    } else {
        let mid = (lo + hi) / 2;
        let x = page_search(img, lay, root, u32_at(pg, topptr(mid)), key, (fuel - 1) as nat);
        match x {
            Hit::Small => middle_search(img, lay, root, pg, key, lo, mid - 1, fuel),
            Hit::Big => middle_search(img, lay, root, pg, key, mid + 1, hi, fuel),
            _ => x,
        }
    }
}

/// What a search in the whole tree comes to.
pub open spec fn search(img: Seq<u8>, lay: Layout, root: int, key: Seq<u8>) -> Hit {
    node_search(img, lay, root, 0, key, img.len() / lay.ps() as nat)
}

/// A leaf that a search comes to has the key.
pub(crate) proof fn lemma_page_hit(
    img: Seq<u8>,
    lay: Layout,
    root: int,
    p: int,
    key: Seq<u8>,
    fuel: nat,
)
    ensures
        page_search(img, lay, root, p, key, fuel) matches Hit::At(c) ==> c.len() > 0 && key_in(
            img,
            lay,
            c.last(),
        ) == Some(key),
    decreases fuel, 2nat, 0nat,
{
    if key_in(img, lay, p) is None {
        lemma_node_hit(img, lay, root, p, key, fuel);
    }
}

/// The same of a search below a node.
pub(crate) proof fn lemma_node_hit(
    img: Seq<u8>,
    lay: Layout,
    root: int,
    p: int,
    key: Seq<u8>,
    fuel: nat,
)
    ensures
        node_search(img, lay, root, p, key, fuel) matches Hit::At(c) ==> c.len() > 0 && key_in(
            img,
            lay,
            c.last(),
        ) == Some(key),
    decreases fuel, 1nat, 0nat,
{
    let start = if p == 0 {
        root
    } else {
        p
    };
    let pg = page(img, lay.ps(), start);
    let n = u16_at(pg, NODE_NUMPTRS as int);
    if fuel > 0 {
        lemma_page_hit(img, lay, root, u32_at(pg, topptr(0)), key, (fuel - 1) as nat);
        lemma_page_hit(img, lay, root, u32_at(pg, topptr(n - 1)), key, (fuel - 1) as nat);
        lemma_middle_hit(img, lay, root, pg, key, 1, n - 2, fuel);
    }
}

/// The same of a search among some children.
proof fn lemma_middle_hit(
    img: Seq<u8>,
    lay: Layout,
    root: int,
    pg: Seq<u8>,
    key: Seq<u8>,
    lo: int,
    hi: int,
    fuel: nat,
)
    ensures
        middle_search(img, lay, root, pg, key, lo, hi, fuel) matches Hit::At(c) ==> c.len() > 0
            && key_in(img, lay, c.last()) == Some(key),
    decreases fuel, 0nat, hi - lo + 1,
{
    if lo <= hi && fuel > 0 {
        let mid = (lo + hi) / 2;
        lemma_page_hit(img, lay, root, u32_at(pg, topptr(mid)), key, (fuel - 1) as nat);
        lemma_middle_hit(img, lay, root, pg, key, lo, mid - 1, fuel);
        lemma_middle_hit(img, lay, root, pg, key, mid + 1, hi, fuel);
    }
}

/// What the bits of page types say.
pub(crate) proof fn lemma_types()
    ensures
        0x0008u16 & 0x0008u16 == 0x0008u16,
        0x0004u16 & 0x0008u16 == 0,
        0x4004u16 & 0x0008u16 == 0,
        0x8004u16 & 0x0008u16 == 0,
        0x0008u16 & 0x0004u16 == 0,
        0x0004u16 & 0x0004u16 == 0x0004u16,
        0x4004u16 & 0x0004u16 == 0x0004u16,
        0x8004u16 & 0x0004u16 == 0x0004u16,
        0x0008u16 & 0x8000u16 == 0,
        0x0004u16 & 0x8000u16 == 0,
        0x4004u16 & 0x8000u16 == 0,
        0x8004u16 & 0x8000u16 == 0x8000u16,
        0x4004u16 & 0x4000u16 == 0x4000u16,
{
    assert(0x0008u16 & 0x0008u16 == 0x0008u16 && 0x0004u16 & 0x0008u16 == 0 && 0x4004u16 & 0x0008u16
        == 0 && 0x8004u16 & 0x0008u16 == 0 && 0x0008u16 & 0x0004u16 == 0 && 0x0004u16 & 0x0004u16
        == 0x0004u16 && 0x4004u16 & 0x0004u16 == 0x0004u16 && 0x8004u16 & 0x0004u16 == 0x0004u16
        && 0x0008u16 & 0x8000u16 == 0 && 0x0004u16 & 0x8000u16 == 0 && 0x4004u16 & 0x8000u16 == 0
        && 0x8004u16 & 0x8000u16 == 0x8000u16 && 0x4004u16 & 0x4000u16 == 0x4000u16)
        by (bit_vector);
}

/// The low bits of a key's length field.
pub(crate) proof fn lemma_klen(x: u16)
    ensures
        x & 0x7fff == (if x < 0x8000 {
            x as int
        } else {
            x - 0x8000
        }),
{
    assert(x < 0x8000 ==> x & 0x7fff == x) by (bit_vector);
    assert(x >= 0x8000 ==> x & 0x7fff == (x - 0x8000) as u16) by (bit_vector);
}

/// How a node's last step of a search continues in the child that it goes into.
proof fn lemma_step(img: Seq<u8>, lay: Layout, t: Tree, h: int, top: bool, key: Seq<u8>, i: int)
    requires
        holds(img, lay, t, h, top),
        t is Node,
        sorted(entries(t)),
        t.kids().len() > 0,
        i == pick(t.kids(), key),
        !(t.kids().len() == 1 && too_big(entries(t.kids()[0]), key)),
    ensures
        0 <= i < t.kids().len(),
        passed(t, key) == seq![t.pg()] + passed(t.kids()[i], key),
        is_key(entries(t), key) ==> is_key(entries(t.kids()[i]), key) && leaf_no(t, key) == leaf_no(
            t.kids()[i],
            key,
        ),
{
    let kids = t.kids();
    lemma_no_gaps(img, lay, t, h, top);
    lemma_pick(kids, key);
    lemma_row(kids, key);
    assert(holds(img, lay, kids[0], h - 1, false));
    assert(holds(img, lay, kids[i], h - 1, false));
    if kids[0] is Leaf {
        assert(way(t, key) =~= Seq::empty());
        assert(passed(t, key) =~= seq![t.pg()] + passed(kids[i], key));
    } else {
        let rest = way(kids[i], key);
        let w = way(t, key);
        assert(w == seq![i] + rest);
        assert(w.drop_first() =~= rest);
        assert(passed(t, key) =~= seq![t.pg()] + passed(kids[i], key));
    }
}

impl<'a> RmdbFetch<'a> {
    /// Reads the tree below `rootpage`.
    pub fn new(lay: Layout, mmap: &'a [u8], rootpage: u32) -> (r: RmdbFetch<'a>)
        ensures
            r.lay == lay,
            r.mmap == mmap,
            r.rootpage == rootpage,
    {
        RmdbFetch { lay, mmap, rootpage }
    }

    /// The value of `key` in the leaf `leafnum`, in one piece; nothing if the leaf has
    /// another key. On request a value in other pages is checked against its hash.
    pub(crate) fn get_data(
        &self,
        leafnum: u32,
        key: &[u8],
        integrity_check: bool,
        Ghost(t): Ghost<Tree>,
    ) -> (r: Result<Vec<&'a [u8]>, RmdbError>)
        requires
            self.lay.sane(),
        ensures
            t is Leaf && t.pg() == leafnum && holds(self.mmap@, self.lay, t, 0, false)
                ==> match r {
                Ok(v) => if t->key == key@ {
                    &&& v.len() == 1
                    &&& v[0]@ == t->val
                    &&& integrity_check ==> t->right
                } else {
                    v.len() == 0
                },
                Err(e) => t->key == key@ && integrity_check && !t->right
                    && e is IntegrityCheck,
            },
            integrity_check && key_in(self.mmap@, self.lay, leafnum as int) == Some(key@) ==> match r {
                Ok(v) => v.len() == 1 && value_in(self.mmap@, self.lay, leafnum as int) == Some(
                    v[0]@,
                ) && sum_in(self.mmap@, self.lay, leafnum as int, v[0]@),
                Err(e) => match value_in(self.mmap@, self.lay, leafnum as int) {
                    Some(val) => !sum_in(self.mmap@, self.lay, leafnum as int, val)
                        && e is IntegrityCheck,
                    None => e is InvalidMetadata,
                },
            },
    {
        let ps: usize = self.lay.pagesize;
        let pl: usize = self.lay.payload;
        let ghost good = t is Leaf && t.pg() == leafnum && holds(
            self.mmap@,
            self.lay,
            t,
            0,
            false,
        );
        if !page_in(self.mmap, ps, leafnum) {
            return Err(RmdbError::InvalidMetadata);
        }
        let ghost pg = page(self.mmap@, self.lay.ps(), leafnum as int);
        proof {
            lemma_types();
            lemma_page_len(self.mmap@, self.lay.ps(), leafnum as int);
        }
        let ptype: u16 = get_u16(self.mmap, ps, leafnum, POS_PAGETYPE);
        if ptype & PAGE_LEAF != PAGE_LEAF {
            return Err(RmdbError::InvalidMetadata);
        }
        let mut res: Vec<&'a [u8]> = Vec::new();
        let keynum: usize = get_u16(self.mmap, ps, leafnum, LEAF_KEYNUM) as usize;
        let mut k: usize = 0;
        while k < keynum
            invariant
                self.lay.sane(),
                ps == self.lay.pagesize,
                pl == self.lay.payload,
                in_img(self.mmap@, self.lay.ps(), leafnum as int),
                pg == page(self.mmap@, self.lay.ps(), leafnum as int),
                pg.len() == ps,
                good == (t is Leaf && t.pg() == leafnum && holds(
                    self.mmap@,
                    self.lay,
                    t,
                    0,
                    false,
                )),
                keynum <= 0xffff,
                good ==> keynum == 1,
                good && k > 0 ==> t->key != key@,
                key_in(self.mmap@, self.lay, leafnum as int) == Some(key@) ==> keynum == 1 && k == 0,
                res.len() == 0,
            decreases keynum - k,
        {
            if (LEAF_KEYPTRS + k) % 2 != 0 || LEAF_KEYPTRS + k + 2 > pl {
                return Err(RmdbError::InvalidMetadata);
            }
            let base: usize = get_u16(self.mmap, ps, leafnum, LEAF_KEYPTRS + k) as usize;
            if base % 2 != 0 || base + 2 > pl {
                return Err(RmdbError::InvalidMetadata);
            }
            let klen: u16 = get_u16(self.mmap, ps, leafnum, base);
            proof {
                lemma_klen(klen);
            }
            let kl: usize = (klen & 0x7fff) as usize;
            if base + LEAF_PL_KEY + kl > pl {
                return Err(RmdbError::InvalidMetadata);
            }
            let kk: &[u8] = page_bytes(
                self.mmap,
                ps,
                leafnum,
                base + LEAF_PL_KEY,
                base + LEAF_PL_KEY + kl,
            );
            if !same_bytes(kk, key) {
                k = k + 1;
                continue ;
            }
            let dataptr: usize = align(base + 2 + kl);
            if klen as usize == kl {
                if dataptr + 2 > pl {
                    return Err(RmdbError::InvalidMetadata);
                }
                let datalen: usize = get_u16(self.mmap, ps, leafnum, dataptr) as usize;
                if dataptr + 2 + datalen > pl {
                    return Err(RmdbError::InvalidMetadata);
                }
                res.push(
                    page_bytes(self.mmap, ps, leafnum, dataptr + 2, dataptr + 2 + datalen),
                );
            } else {
                if dataptr + 8 > pl {
                    return Err(RmdbError::InvalidMetadata);
                }
                let dsize: usize = get_u32(self.mmap, ps, leafnum, dataptr) as usize;
                let pnum: u32 = get_u32(self.mmap, ps, leafnum, dataptr + 4);
                proof {
                    if good {
                        lemma_far(self.mmap@, self.lay, t->val, t->first, t->count);
                    }
                }
                let data: &'a [u8] = match run_bytes(self.mmap, ps, pnum, dsize) {
                    Some(data) => data,
                    None => {
                        return Err(RmdbError::InvalidMetadata);
                    },
                };
                if integrity_check && self.lay.flags.contains(RmdbFlags::PAGE_INTEGRITY) {
                    if dataptr + 8 + RMDB_INTGSIZE > pl {
                        return Err(RmdbError::InvalidMetadata);
                    }
                    let h: &[u8] = page_bytes(
                        self.mmap,
                        ps,
                        leafnum,
                        dataptr + 8,
                        dataptr + 8 + RMDB_INTGSIZE,
                    );
                    let pieces: Vec<&[u8]> = vec![data];
                    proof {
                        reveal_with_fuel(joined, 2);
                        assert(pieces@.drop_last() =~= Seq::empty());
                        assert(joined(pieces@) =~= data@);
                    }
                    match self.lay.data_integrity_check(&pieces, h) {
                        Ok(_) => {},
                        Err(e) => {
                            return Err(e);
                        },
                    }
                }
                res.push(data);
            }
            return Ok(res);
        }
        Ok(res)
    }

    /// The key of the leaf `leaf`.
    pub(crate) fn get_leaf_key(&self, leaf: u32, Ghost(t): Ghost<Tree>, Ghost(h): Ghost<int>) -> (r:
        Result<&'a [u8], RmdbError>)
        requires
            self.lay.sane(),
        ensures
            t.pg() == leaf && holds(self.mmap@, self.lay, t, h, false) ==> match t {
                Tree::Leaf { key, .. } => r matches Ok(k) && k@ == key,
                Tree::Node { .. } => r matches Err(e) && e is PageNotLeaf,
            },
            match r {
                Ok(k) => key_in(self.mmap@, self.lay, leaf as int) == Some(k@),
                Err(e) => key_in(self.mmap@, self.lay, leaf as int) is None && if in_img(
                    self.mmap@,
                    self.lay.ps(),
                    leaf as int,
                ) && u16_at(page(self.mmap@, self.lay.ps(), leaf as int), 0) as u16 & PAGE_LEAF
                    != PAGE_LEAF {
                    e is PageNotLeaf
                } else {
                    e is InvalidMetadata
                },
            },
    {
        let ps: usize = self.lay.pagesize;
        let pl: usize = self.lay.payload;
        if !page_in(self.mmap, ps, leaf) {
            return Err(RmdbError::InvalidMetadata);
        }
        proof {
            lemma_types();
            lemma_page_len(self.mmap@, self.lay.ps(), leaf as int);
        }
        let ptype: u16 = get_u16(self.mmap, ps, leaf, POS_PAGETYPE);
        if ptype & PAGE_LEAF != PAGE_LEAF {
            return Err(RmdbError::PageNotLeaf);
        }
        let keynum: u16 = get_u16(self.mmap, ps, leaf, LEAF_KEYNUM);
        if keynum != 1 {
            return Err(RmdbError::InvalidMetadata);
        }
        let base: usize = get_u16(self.mmap, ps, leaf, LEAF_KEYPTRS) as usize;
        if base % 2 != 0 || base + 2 > pl {
            return Err(RmdbError::InvalidMetadata);
        }
        let klen: u16 = get_u16(self.mmap, ps, leaf, base);
        proof {
            lemma_klen(klen);
        }
        let kl: usize = (klen & 0x7fff) as usize;
        if base + LEAF_PL_KEY + kl > pl {
            return Err(RmdbError::InvalidMetadata);
        }
        Ok(page_bytes(self.mmap, ps, leaf, base + LEAF_PL_KEY, base + LEAF_PL_KEY + kl))
    }

    /// Whether the tree is what page `page` of the image is the root of.
    pub open spec fn roots(self, page: u32, t: Tree, h: int, top: bool, fuel: usize) -> bool {
        &&& t.pg() == page
        &&& holds(self.mmap@, self.lay, t, h, top)
        &&& sorted(entries(t))
        &&& h <= fuel
    }

    /// Searches the tree below `page` for `key`; `page` may be a leaf.
    fn probe(
        &self,
        pageptr: u32,
        key: &[u8],
        parents: &mut Vec<u32>,
        fuel: usize,
        Ghost(t): Ghost<Tree>,
        Ghost(h): Ghost<int>,
    ) -> (r: Result<u32, RmdbError>)
        requires
            self.lay.sane(),
        ensures
            self.roots(pageptr, t, h, false, fuel) ==> outcome(t, key@, r) && nums(final(parents)@)
                == nums(old(parents)@) + passed(t, key@),
            hits(
                r,
                page_search(
                    self.mmap@,
                    self.lay,
                    self.rootpage as int,
                    pageptr as int,
                    key@,
                    fuel as nat,
                ),
                old(parents)@,
                final(parents)@,
            ),
            final(parents).len() >= old(parents).len(),
            final(parents)@.take(old(parents).len() as int) == old(parents)@,
        decreases fuel, 1nat,
    {
        let ghost good = self.roots(pageptr, t, h, false, fuel);
        proof {
            assert(parents@.take(parents.len() as int) =~= parents@);
            assert(nums(parents@) + Seq::<int>::empty() =~= nums(parents@));
        }
        match self.get_leaf_key(pageptr, Ghost(t), Ghost(h)) {
            Ok(pkey) => {
                proof {
                    if good {
                        lemma_leaf_outcome(t, key@);
                    }
                    lemma_lt_irreflexive(key@);
                    if lt(key@, pkey@) && lt(pkey@, key@) {
                        lemma_lt_transitive(key@, pkey@, key@);
                    }
                }
                match rank(key, pkey) {
                    Rank::Same => {
                        return Ok(pageptr);
                    },
                    Rank::Before => {
                        return Err(RmdbError::KeyTooSmall);
                    },
                    Rank::Behind => {
                        return Err(RmdbError::KeyTooBig);
                    },
                }
            },
            Err(error) => {
                match error {
                    RmdbError::PageNotLeaf => {},
                    _ => {
                        return Err(error);
                    },
                }
            },
        }
        self.get_parents_leaf(pageptr, key, parents, fuel, Ghost(t), Ghost(h), Ghost(false))
    }

    /// Searches the tree below the node `base`, or below the root where `base` is 0, for
    /// `key`. The nodes on the way are added to `parents`.
    pub(crate) fn get_parents_leaf(
        &self,
        base: u32,
        key: &[u8],
        parents: &mut Vec<u32>,
        fuel: usize,
        Ghost(t): Ghost<Tree>,
        Ghost(h): Ghost<int>,
        Ghost(top): Ghost<bool>,
    ) -> (r: Result<u32, RmdbError>)
        requires
            self.lay.sane(),
        ensures
            t is Node && self.roots(
                if base == 0 {
                    self.rootpage
                } else {
                    base
                },
                t,
                h,
                top,
                fuel,
            ) ==> outcome(t, key@, r) && nums(final(parents)@) == nums(old(parents)@) + passed(
                t,
                key@,
            ),
            hits(
                r,
                node_search(
                    self.mmap@,
                    self.lay,
                    self.rootpage as int,
                    base as int,
                    key@,
                    fuel as nat,
                ),
                old(parents)@,
                final(parents)@,
            ),
            base == 0 && self.rootpage == 0 ==> (r matches Err(e) && e is KeyNotFound)
                && final(parents)@ == old(parents)@,
            ({
                let start = if base == 0 {
                    self.rootpage
                } else {
                    base
                };
                start != 0 && (!in_img(self.mmap@, self.lay.ps(), start as int) || u16_at(
                    page(self.mmap@, self.lay.ps(), start as int),
                    0,
                ) as u16 & PAGE_NODE != PAGE_NODE) ==> (r matches Err(e) && e is InvalidMetadata)
                    && final(parents)@ == old(parents)@
            }),
            final(parents).len() >= old(parents).len(),
            final(parents)@.take(old(parents).len() as int) == old(parents)@,
        decreases fuel, 0nat,
    {
        let ps: usize = self.lay.pagesize;
        let pl: usize = self.lay.payload;
        let ghost par0 = parents@;
        assert(par0.take(par0.len() as int) =~= par0);
        let mut pagenum: u32 = base;
        if pagenum == 0 {
            if self.rootpage == 0 {
                return Err(RmdbError::KeyNotFound);
            }
            pagenum = self.rootpage;
        }
        let ghost good = t is Node && self.roots(pagenum, t, h, top, fuel);
        let ghost kids = t.kids();
        if fuel == 0 || !page_in(self.mmap, ps, pagenum) {
            return Err(RmdbError::InvalidMetadata);
        }
        let ghost pg = page(self.mmap@, self.lay.ps(), pagenum as int);
        proof {
            lemma_types();
            lemma_page_len(self.mmap@, self.lay.ps(), pagenum as int);
        }
        let ptype: u16 = get_u16(self.mmap, ps, pagenum, POS_PAGETYPE);
        if ptype & PAGE_NODE != PAGE_NODE {
            return Err(RmdbError::InvalidMetadata);
        }
        parents.push(pagenum);
        let ghost par1 = parents@;
        proof {
            assert(nums(par1) =~= nums(par0) + seq![pagenum as int]);
            assert(par1.take(par0.len() as int) =~= par0);
        }
        let parents_size: usize = parents.len();
        let nptrs: usize = get_u16(self.mmap, ps, pagenum, NODE_NUMPTRS) as usize;
        if nptrs == 0 {
            return Err(RmdbError::KeyNotFound);
        }
        let ghost g = below(kids, key@);
        proof {
            if good {
                lemma_no_gaps(self.mmap@, self.lay, t, h, top);
                lemma_below(kids, key@);
                lemma_row(kids, key@);
                lemma_pick(kids, key@);
            }
        }
        // the first child
        let head: u32 = get_u32(self.mmap, ps, pagenum, NODE_FIRSTPTR);
        proof {
            if good {
                lemma_kid(*self, t, h, top, 0);
                lemma_outside(entries(kids[0]), key@);
            }
        }
        match self.probe(head, key, parents, fuel - 1, Ghost(kids[0]), Ghost(h - 1)) {
            Err(RmdbError::KeyTooBig) => {},
            r => {
                proof {
                    if good {
                        lemma_return(self.mmap@, self.lay, t, h, top, key@, 0, r);
                        lemma_nums(par0, pagenum as int, passed(kids[0], key@));
                    }
                    lemma_prefix(par0, par1, parents@);
                    lemma_chain(par0, par1, pagenum);
                }
                return r;
            },
        }
        parents.truncate(parents_size);
        assert(parents@ =~= par1);
        if nptrs == 1 {
            proof {
                if good {
                    lemma_outside(entries(t), key@);
                }
            }
            return Err(RmdbError::KeyTooBig);
        }
        if NODE_FIRSTPTR + nptrs * PTRSZ > pl {
            return Err(RmdbError::InvalidMetadata);
        }
        // the last child
        let tail: u32 = get_u32(self.mmap, ps, pagenum, NODE_FIRSTPTR + (nptrs - 1) * PTRSZ);
        proof {
            if good {
                lemma_kid(*self, t, h, top, nptrs - 1);
                lemma_outside(entries(kids[nptrs - 1]), key@);
            }
        }
        match self.probe(
            tail,
            key,
            parents,
            fuel - 1,
            Ghost(kids[nptrs - 1]),
            Ghost(h - 1),
        ) {
            Err(RmdbError::KeyTooSmall) => {},
            r => {
                proof {
                    if good {
                        lemma_return(self.mmap@, self.lay, t, h, top, key@, nptrs - 1, r);
                        lemma_nums(par0, pagenum as int, passed(kids[nptrs - 1], key@));
                    }
                    lemma_prefix(par0, par1, parents@);
                    lemma_chain(par0, par1, pagenum);
                }
                return r;
            },
        }
        proof {
            lemma_prefix(par0, par1, parents@);
        }
        if nptrs == 2 {
            proof {
                if good {
                    lemma_return(
                        self.mmap@,
                        self.lay,
                        t,
                        h,
                        top,
                        key@,
                        1,
                        Err(RmdbError::KeyNotFound),
                    );
                    lemma_nums(par0, pagenum as int, passed(kids[1], key@));
                }
            }
            return Err(RmdbError::KeyNotFound);
        }
        // those between
        let mut lo: usize = 1;
        let mut hi: usize = nptrs - 2;
        while lo <= hi
            invariant
                self.lay.sane(),
                ps == self.lay.pagesize,
                pl == self.lay.payload,
                in_img(self.mmap@, self.lay.ps(), pagenum as int),
                pg == page(self.mmap@, self.lay.ps(), pagenum as int),
                fuel > 0,
                nptrs >= 3,
                NODE_FIRSTPTR + nptrs * PTRSZ <= pl,
                parents_size == par1.len(),
                par0 == old(parents)@,
                pagenum == (if base == 0 {
                    self.rootpage
                } else {
                    base
                }),
                pagenum != 0,
                par1.take(par0.len() as int) == par0,
                nums(par1) == nums(par0) + seq![pagenum as int],
                1 <= lo <= nptrs - 1,
                hi <= nptrs - 2,
                par0.len() < par1.len() <= parents.len(),
                parents@.take(par1.len() as int) == par1,
                parents@.take(par0.len() as int) == par0,
                pagenum == (if base == 0 {
                    self.rootpage
                } else {
                    base
                }),
                pagenum != 0,
                ptype == u16_at(page(self.mmap@, self.lay.ps(), pagenum as int), 0),
                ptype & PAGE_NODE == PAGE_NODE,
                node_search(
                    self.mmap@,
                    self.lay,
                    self.rootpage as int,
                    base as int,
                    key@,
                    fuel as nat,
                ) == by_way_of(
                    pagenum as int,
                    middle_search(
                        self.mmap@,
                        self.lay,
                        self.rootpage as int,
                        pg,
                        key@,
                        lo as int,
                        hi as int,
                        fuel as nat,
                    ),
                ),
                good == (t is Node && self.roots(pagenum, t, h, top, fuel)),
                kids == t.kids(),
                g == below(kids, key@),
                good ==> {
                    &&& kids.len() == nptrs
                    &&& lo <= g <= hi + 1
                    &&& g < nptrs
                    &&& g <= hi || too_small(entries(kids[g]), key@)
                    &&& lo <= hi ==> last_probe(lo as int, hi as int, g) == last_probe(
                        1,
                        nptrs - 2,
                        g,
                    )
                    &&& lo > hi ==> nums(parents@) == nums(par1) + passed(
                        kids[last_probe(1, nptrs - 2, g)],
                        key@,
                    )
                    &&& too_big(entries(kids[0]), key@)
                },
            decreases hi + 1 - lo,
        {
            parents.truncate(parents_size);
            assert(parents@ =~= par1);
            let mid: usize = (lo + hi) / 2;
            let ptr: u32 = get_u32(self.mmap, ps, pagenum, NODE_FIRSTPTR + mid * PTRSZ);
            proof {
                if good {
                    lemma_kid(*self, t, h, top, 0);
                    lemma_kid(*self, t, h, top, mid as int);
                    lemma_no_gaps(self.mmap@, self.lay, t, h, top);
                    lemma_below(kids, key@);
                    lemma_row(kids, key@);
                    lemma_outside(entries(kids[mid as int]), key@);
                    lemma_outside(entries(kids[0]), key@);
                }
            }
            match self.probe(ptr, key, parents, fuel - 1, Ghost(kids[mid as int]), Ghost(h - 1)) {
                Err(RmdbError::KeyTooSmall) => {
                    proof {
                        lemma_prefix(par0, par1, parents@);
                    }
                    hi = mid - 1;
                },
                Err(RmdbError::KeyTooBig) => {
                    proof {
                        lemma_prefix(par0, par1, parents@);
                    }
                    lo = mid + 1;
                },
                r => {
                    proof {
                        if good {
                            assert(mid == g);
                            lemma_return(self.mmap@, self.lay, t, h, top, key@, mid as int, r);
                            lemma_nums(par0, pagenum as int, passed(kids[mid as int], key@));
                        }
                        lemma_prefix(par0, par1, parents@);
                        lemma_chain(par0, par1, pagenum);
                    }
                    return r;
                },
            }
        }
        proof {
            if good {
                let i = last_probe(1, nptrs - 2, g);
                lemma_no_gaps(self.mmap@, self.lay, t, h, top);
                lemma_below(kids, key@);
                lemma_pick(kids, key@);
                assert(pick(kids, key@) == i);
                lemma_return(
                    self.mmap@,
                    self.lay,
                    t,
                    h,
                    top,
                    key@,
                    i,
                    Err(RmdbError::KeyNotFound),
                );
                lemma_nums(par0, pagenum as int, passed(kids[i], key@));
            }
        }
        Err(RmdbError::KeyNotFound)
    }

    /// How many pages the image has.
    fn img_pages(&self) -> (r: usize)
        requires
            self.lay.sane(),
        ensures
            r == self.mmap@.len() as int / self.lay.ps(),
    {
        self.mmap.len() / self.lay.pagesize
    }

    /// The nodes on the way to where `key` is or would be.
    pub(crate) fn get_parents(&self, key: &[u8], Ghost(t): Ghost<Tree>) -> (r: Result<
        Vec<u32>,
        RmdbError,
    >)
        requires
            self.lay.sane(),
        ensures
            good(self.mmap@, self.lay, self.rootpage as int, t) ==> (r matches Ok(v) && nums(
                v@,
            ) == trail(t, way(t, key@))),
    {
        let mut parents: Vec<u32> = Vec::new();
        let fuel: usize = self.img_pages();
        proof {
            if good(self.mmap@, self.lay, self.rootpage as int, t) {
                lemma_depth(self.mmap@, self.lay, t, height(t), true);
            }
            assert(nums(parents@) =~= Seq::empty());
        }
        let r = self.get_parents_leaf(
            0,
            key,
            &mut parents,
            fuel,
            Ghost(t),
            Ghost(height(t)),
            Ghost(true),
        );
        proof {
            assert(Seq::<int>::empty() + passed(t, key@) =~= passed(t, key@));
        }
        match r {
            Ok(_leaf) => Ok(parents),
            Err(error) => match error {
                RmdbError::KeyNotFound => Ok(parents),
                RmdbError::KeyTooSmall => Ok(parents),
                RmdbError::KeyTooBig => Ok(parents),
                _ => Err(error),
            },
        }
    }

    /// The page of the leaf with the key.
    pub(crate) fn get_leaf(&self, key: &[u8], Ghost(t): Ghost<Tree>) -> (r: Result<u32, RmdbError>)
        requires
            self.lay.sane(),
        ensures
            good(self.mmap@, self.lay, self.rootpage as int, t) ==> match r {
                Ok(leaf) => is_key(entries(t), key@) && leaf == leaf_no(t, key@),
                Err(e) => !is_key(entries(t), key@) && e is KeyNotFound,
            },
            self.rootpage == 0 ==> (r matches Err(e) && e is KeyNotFound),
            match search(self.mmap@, self.lay, self.rootpage as int, key@) {
                Hit::At(c) => r matches Ok(leaf) && leaf == c.last() && key_in(
                    self.mmap@,
                    self.lay,
                    c.last(),
                ) == Some(key@),
                Hit::Broken => r matches Err(e) && e is InvalidMetadata,
                _ => r matches Err(e) && e is KeyNotFound,
            },
    {
        let mut parents: Vec<u32> = Vec::new();
        let fuel: usize = self.img_pages();
        proof {
            lemma_node_hit(self.mmap@, self.lay, self.rootpage as int, 0, key@, fuel as nat);
            if good(self.mmap@, self.lay, self.rootpage as int, t) {
                lemma_depth(self.mmap@, self.lay, t, height(t), true);
            }
        }
        match self.get_parents_leaf(
            0,
            key,
            &mut parents,
            fuel,
            Ghost(t),
            Ghost(height(t)),
            Ghost(true),
        ) {
            Ok(leaf) => Ok(leaf),
            Err(error) => match error {
                RmdbError::KeyTooSmall => Err(RmdbError::KeyNotFound),
                RmdbError::KeyTooBig => Err(RmdbError::KeyNotFound),
                _ => Err(error),
            },
        }
    }

    /// The chain of pages from the root to the first leaf.
    pub(crate) fn get_first_element(&self) -> (r: Result<Vec<u32>, RmdbError>)
        requires
            self.lay.sane(),
        ensures
            match r {
                Ok(v) => self.rootpage != 0 && v.len() >= 2 && leftmost(
                    self.mmap@,
                    self.lay,
                    self.rootpage as int,
                    self.mmap@.len() as nat / self.lay.ps() as nat,
                ) == Some(nums(v@)) && in_img(self.mmap@, self.lay.ps(), v@.last() as int) && u16_at(
                    page(self.mmap@, self.lay.ps(), v@.last() as int),
                    0,
                ) as u16 & PAGE_LEAF == PAGE_LEAF,
                Err(e) => if self.rootpage == 0 {
                    e is KeyNotFound
                } else {
                    e is InvalidMetadata && !(leftmost(
                        self.mmap@,
                        self.lay,
                        self.rootpage as int,
                        self.mmap@.len() as nat / self.lay.ps() as nat,
                    ) matches Some(c) && c.len() >= 2)
                },
            },
    {
        if self.rootpage == 0 {
            return Err(RmdbError::KeyNotFound);
        }
        let ps: usize = self.lay.pagesize;
        let mut res: Vec<u32> = Vec::new();
        let mut pagenum: u32 = self.rootpage;
        let mut fuel: usize = self.img_pages();
        let ghost whole = leftmost(self.mmap@, self.lay, pagenum as int, fuel as nat);
        assert(nums(res@) =~= Seq::empty());
        proof {
            lemma_front(whole, nums(res@), whole);
        }
        loop
            invariant
                self.lay.sane(),
                ps == self.lay.pagesize,
                self.rootpage != 0,
                whole == leftmost(
                    self.mmap@,
                    self.lay,
                    self.rootpage as int,
                    self.mmap@.len() as nat / self.lay.ps() as nat,
                ),
                fronted(
                    whole,
                    nums(res@),
                    leftmost(self.mmap@, self.lay, pagenum as int, fuel as nat),
                ),
            decreases fuel,
        {
            if !page_in(self.mmap, ps, pagenum) {
                return Err(RmdbError::InvalidMetadata);
            }
            let ptype: u16 = get_u16(self.mmap, ps, pagenum, POS_PAGETYPE);
            if ptype & PAGE_NODE == PAGE_NODE {
                if fuel == 0 {
                    return Err(RmdbError::InvalidMetadata);
                }
                let ghost front = nums(res@);
                let ghost here = pagenum as int;
                res.push(pagenum);
                pagenum = get_u32(self.mmap, ps, pagenum, NODE_FIRSTPTR);
                fuel = fuel - 1;
                proof {
                    assert(nums(res@) =~= front.push(here));
                    match leftmost(self.mmap@, self.lay, pagenum as int, fuel as nat) {
                        Some(c) => {
                            assert(front.push(here) + c =~= front + (seq![here] + c));
                        },
                        None => {},
                    }
                }
            } else {
                if res.len() == 0 || ptype & PAGE_LEAF != PAGE_LEAF {
                    proof {
                        assert(nums(res@).len() == res.len());
                    }
                    return Err(RmdbError::InvalidMetadata);
                }
                let ghost front = nums(res@);
                res.push(pagenum);
                assert(nums(res@) =~= front + seq![pagenum as int]);
                return Ok(res);
            }
        }
    }

    /// The child of the node `parent`, which has `nptrs` of them, behind the child `current`;
    /// the first one where `current` is 0. None where `current` is the last or not there.
    fn child_after(&self, parent: u32, nptrs: usize, current: u32) -> (r: Result<
        Option<u32>,
        RmdbError,
    >)
        requires
            self.lay.sane(),
            in_img(self.mmap@, self.lay.ps(), parent as int),
            nptrs == u16_at(page(self.mmap@, self.lay.ps(), parent as int), NODE_NUMPTRS as int),
        ensures
            match sibling(
                page(self.mmap@, self.lay.ps(), parent as int),
                self.lay,
                current as int,
                0,
            ) {
                Sibling::Page(c) => r matches Ok(Some(child)) && child == c,
                Sibling::Last => r matches Ok(None),
                Sibling::Broken => r matches Err(e) && e is InvalidMetadata,
            },
    {
        let ps: usize = self.lay.pagesize;
        let pl: usize = self.lay.payload;
        let ghost pg = page(self.mmap@, self.lay.ps(), parent as int);
        if current == 0 {
            return Ok(Some(get_u32(self.mmap, ps, parent, NODE_FIRSTPTR)));
        }
        let mut n: usize = 0;
        while n + 1 < nptrs
            invariant
                self.lay.sane(),
                ps == self.lay.pagesize,
                pl == self.lay.payload,
                in_img(self.mmap@, self.lay.ps(), parent as int),
                pg == page(self.mmap@, self.lay.ps(), parent as int),
                nptrs == u16_at(pg, NODE_NUMPTRS as int),
                nptrs <= 0xffff,
                n <= nptrs,
                current != 0,
                sibling(pg, self.lay, current as int, 0) == sibling(
                    pg,
                    self.lay,
                    current as int,
                    n as int,
                ),
            decreases nptrs - n,
        {
            if NODE_FIRSTPTR + (n + 1) * PTRSZ > pl {
                return Err(RmdbError::InvalidMetadata);
            }
            if get_u32(self.mmap, ps, parent, NODE_FIRSTPTR + n * PTRSZ) == current {
                if NODE_FIRSTPTR + (n + 2) * PTRSZ > pl {
                    return Err(RmdbError::InvalidMetadata);
                }
                return Ok(Some(get_u32(self.mmap, ps, parent, NODE_FIRSTPTR + (n + 1) * PTRSZ)));
            }
            n = n + 1;
        }
        Ok(None)
    }

    /// Goes from `start` into the first child each time, down to a leaf. The pages on the
    /// way are put behind those of `up`.
    fn go_down(
        &self,
        up: Vec<u32>,
        start: u32,
        Ghost(t): Ghost<Tree>,
        Ghost(q): Ghost<Seq<int>>,
    ) -> (r: Result<Vec<u32>, RmdbError>)
        requires
            self.lay.sane(),
        ensures
            match first_below(
                self.mmap@,
                self.lay,
                start as int,
                self.mmap@.len() as nat / self.lay.ps() as nat,
            ) {
                Some(c) => r matches Ok(v) && nums(v@) == nums(up@) + c,
                None => r matches Err(e) && e is InvalidMetadata,
            },
            good(self.mmap@, self.lay, self.rootpage as int, t) && q.len() > 0 && leads(t, q)
                && trail(t, q) == nums(up@).push(start as int) ==> (r matches Ok(v)
                && stands_at(t, nums(v@), before(t, q).len() as int)),
    {
        let ps: usize = self.lay.pagesize;
        let mut walker: Vec<u32> = up;
        let mut child: u32 = start;
        let mut fuel: usize = self.img_pages();
        let ghost first = nums(walker@);
        let ghost whole = first_below(self.mmap@, self.lay, child as int, fuel as nat);
        let ghost sound = good(self.mmap@, self.lay, self.rootpage as int, t) && q.len() > 0
            && leads(t, q) && trail(t, q) == nums(up@).push(start as int);
        let ghost h = height(t);
        let ghost i = before(t, q).len() as int;
        let ghost mut p = q;
        let ghost mut front = Seq::<int>::empty();
        proof {
            lemma_front(whole, front, whole);
            assert(first + front =~= first);
            if sound {
                lemma_depth(self.mmap@, self.lay, t, h, true);
            }
        }
        loop
            invariant
                self.lay.sane(),
                ps == self.lay.pagesize,
                first == nums(up@),
                whole == first_below(
                    self.mmap@,
                    self.lay,
                    start as int,
                    self.mmap@.len() as nat / self.lay.ps() as nat,
                ),
                sound == (good(self.mmap@, self.lay, self.rootpage as int, t) && q.len() > 0
                    && leads(t, q) && trail(t, q) == nums(up@).push(start as int)),
                i == before(t, q).len(),
                nums(walker@) == first + front,
                fronted(
                    whole,
                    front,
                    first_below(self.mmap@, self.lay, child as int, fuel as nat),
                ),
                h == height(t),
                sound ==> {
                    &&& p.len() > 0
                    &&& leads(t, p)
                    &&& trail(t, p) == nums(walker@).push(child as int)
                    &&& before(t, p).len() == i
                    &&& h - p.len() <= fuel
                },
            decreases fuel,
        {
            proof {
                lemma_types();
                if sound {
                    lemma_walk(self.mmap@, self.lay, t, h, p);
                    lemma_trail_last(t, p);
                    assert(nums(walker@).push(child as int).last() == child);
                    assert(part(t, p).pg() == child);
                }
            }
            if !page_in(self.mmap, ps, child) {
                return Err(RmdbError::InvalidMetadata);
            }
            let ctype: u16 = get_u16(self.mmap, ps, child, POS_PAGETYPE);
            let ghost w0 = walker@;
            let ghost here = child as int;
            if ctype & PAGE_LEAF == PAGE_LEAF {
                walker.push(child);
                proof {
                    assert(nums(walker@) =~= nums(w0).push(here));
                    assert(nums(walker@) =~= first + (front + seq![here]));
                    if sound {
                        assert(leads_to(t, p, nums(walker@), i));
                    }
                }
                return Ok(walker);
            }
            if ctype & PAGE_NODE != PAGE_NODE {
                return Err(RmdbError::InvalidMetadata);
            }
            if fuel == 0 || get_u16(self.mmap, ps, child, NODE_NUMPTRS) == 0 {
                return Err(RmdbError::InvalidMetadata);
            }
            walker.push(child);
            child = get_u32(self.mmap, ps, child, NODE_FIRSTPTR);
            fuel = fuel - 1;
            proof {
                assert(nums(walker@) =~= nums(w0).push(here));
                match first_below(self.mmap@, self.lay, child as int, fuel as nat) {
                    Some(c) => {
                        assert(front.push(here) + c =~= front + (seq![here] + c));
                    },
                    None => {},
                }
                assert(first + front.push(here) =~= (first + front).push(here));
                front = front.push(here);
                if sound {
                    let node = part(t, p);
                    lemma_push(t, p, 0);
                    lemma_sibling(t, p, -1, 0);
                    assert(node.kids()[0].pg() == u32_at(page(self.mmap@, self.lay.ps(), here), topptr(0)));
                    p = p.push(0);
                }
            }
        }
    }

    /// The chain of pages from the root to the leaf behind the one where `chain` ends.
    pub(crate) fn get_next_element(&self, chain: &Vec<u32>, Ghost(t): Ghost<Tree>, Ghost(i): Ghost<
        int,
    >) -> (r: Result<Vec<u32>, RmdbError>)
        requires
            self.lay.sane(),
        ensures
            good(self.mmap@, self.lay, self.rootpage as int, t) && stands_at(
                t,
                nums(chain@),
                i,
            ) ==> match r {
                Ok(v) => i + 1 < entries(t).len() && stands_at(t, nums(v@), i + 1),
                Err(e) => i + 1 == entries(t).len() && e is KeyNotFound,
            },
            match chain_after(self.mmap@, self.lay, nums(chain@)) {
                Next::Chain(c) => r matches Ok(v) && nums(v@) == c,
                Next::End => r matches Err(e) && e is KeyNotFound,
                Next::Broken => r matches Err(e) && e is InvalidMetadata,
            },
    {
        let ps: usize = self.lay.pagesize;
        let ghost sound = good(self.mmap@, self.lay, self.rootpage as int, t) && stands_at(
            t,
            nums(chain@),
            i,
        );
        let ghost h = height(t);
        let ghost mut p: Seq<int> = Seq::empty();
        let mut walker: Vec<u32> = chain.clone();
        assert(walker@ =~= chain@);
        let mut current: u32 = match walker.pop() {
            Some(x) => x,
            None => {
                proof {
                    if sound {
                        let q = choose|q: Seq<int>| #[trigger] leads_to(t, q, nums(chain@), i);
                        lemma_trail_len(t, q);
                    }
                }
                return Err(RmdbError::InvalidMetadata);
            },
        };
        proof {
            assert(nums(chain@) =~= nums(walker@).push(current as int));
            assert(nums(chain@).drop_last() =~= nums(walker@));
            if sound {
                p = choose|q: Seq<int>| #[trigger] leads_to(t, q, nums(chain@), i);
                lemma_stands(t, p);
                assert(entries(part(t, p)).len() == 1);
            }
        }
        while walker.len() > 0
            invariant
                self.lay.sane(),
                ps == self.lay.pagesize,
                sound == (good(self.mmap@, self.lay, self.rootpage as int, t) && stands_at(
                    t,
                    nums(chain@),
                    i,
                )),
                h == height(t),
                chain_after(self.mmap@, self.lay, nums(chain@)) == next_chain(
                    self.mmap@,
                    self.lay,
                    nums(walker@),
                    current as int,
                ),
                sound ==> {
                    &&& leads(t, p)
                    &&& nums(walker@).push(current as int) == trail(t, p)
                    &&& before(t, p).len() + entries(part(t, p)).len() == i + 1
                },
            decreases walker.len(),
        {
            let parent: u32 = walker[walker.len() - 1];
            let ghost up = p.drop_last();
            let ghost node = part(t, up);
            let ghost at = p.last();
            proof {
                assert(nums(walker@).last() == parent);
                lemma_types();
                if sound {
                    lemma_trail_len(t, p);
                    lemma_pop(t, p);
                    lemma_push(t, up, at);
                    assert(nums(walker@).push(current as int).drop_last() =~= nums(walker@));
                    assert(trail(t, p).drop_last() =~= trail(t, up));
                    assert(nums(walker@).push(current as int).last() == current);
                    lemma_trail_last(t, up);
                    lemma_walk(self.mmap@, self.lay, t, h, up);
                    lemma_walk(self.mmap@, self.lay, t, h, p);
                    lemma_sibling_kid(
                        page(self.mmap@, self.lay.ps(), parent as int),
                        self.lay,
                        up.len() == 0,
                        node,
                        at,
                        0,
                    );
                }
            }
            if !page_in(self.mmap, ps, parent) {
                return Err(RmdbError::InvalidMetadata);
            }
            let ptype: u16 = get_u16(self.mmap, ps, parent, POS_PAGETYPE);
            if ptype & PAGE_NODE != PAGE_NODE {
                return Err(RmdbError::InvalidMetadata);
            }
            let nptrs: usize = get_u16(self.mmap, ps, parent, NODE_NUMPTRS) as usize;
            if nptrs == 0 {
                return Err(RmdbError::InvalidMetadata);
            }
            match self.child_after(parent, nptrs, current) {
                Ok(Some(child)) => {
                    let ghost q = up.push(at + 1);
                    proof {
                        if sound {
                            lemma_push(t, up, at + 1);
                            lemma_sibling(t, up, at, at + 1);
                        }
                    }
                    let r = self.go_down(walker, child, Ghost(t), Ghost(q));
                    proof {
                        if sound {
                            let c = nums(r->Ok_0@);
                            let x = choose|x: Seq<int>| #[trigger] leads_to(t, x, c, i + 1);
                            lemma_stands(t, x);
                        }
                    }
                    return r;
                },
                Ok(None) => {},
                Err(e) => {
                    return Err(e);
                },
            }
            let ghost w0 = walker@;
            match walker.pop() {
                Some(x) => {
                    current = x;
                },
                None => {
                    assert(false);
                },
            }
            proof {
                assert(nums(w0) =~= nums(walker@).push(current as int));
                assert(nums(w0).drop_last() =~= nums(walker@));
                if sound {
                    lemma_last_kid(t, up, at);
                }
                p = up;
            }
        }
        proof {
            if sound {
                lemma_trail_len(t, p);
                assert(p =~= Seq::empty());
                assert(before(t, p).len() == 0);
            }
        }
        Err(RmdbError::KeyNotFound)
    }
}

/// Which child of a node comes behind another.
pub enum Sibling {
    /// The one with this page.
    Page(int),
    /// The other is the last, or not there.
    Last,
    /// The node counts more children than it has room for.
    Broken,
}

/// The child behind the child `current` of the node `pg`, looking from its child `m` on; the
/// first child where `current` is 0.
pub open spec fn sibling(pg: Seq<u8>, lay: Layout, current: int, m: int) -> Sibling
    decreases u16_at(pg, NODE_NUMPTRS as int) - m,
{
    if current == 0 {
        Sibling::Page(u32_at(pg, topptr(0)))
    } else if m + 1 >= u16_at(pg, NODE_NUMPTRS as int) {
        Sibling::Last
    } else if topptr(m + 1) > lay.payload {
        Sibling::Broken
    } else if u32_at(pg, topptr(m)) != current {
        sibling(pg, lay, current, m + 1)
    } else if topptr(m + 2) > lay.payload {
        Sibling::Broken
    } else {
        Sibling::Page(u32_at(pg, topptr(m + 1)))
    }
}

/// The pages from `p` on when one goes into the first child each time, down to a leaf, if
/// every node has children and that takes no more than `fuel` steps.
pub open spec fn first_below(img: Seq<u8>, lay: Layout, p: int, fuel: nat) -> Option<Seq<int>>
    decreases fuel,
{
    let pg = page(img, lay.ps(), p);
    let ty = u16_at(pg, 0) as u16;
    if !in_img(img, lay.ps(), p) {
        None
    } else if ty & PAGE_LEAF == PAGE_LEAF {
        Some(seq![p])
    } else if ty & PAGE_NODE != PAGE_NODE || fuel == 0 || u16_at(pg, NODE_NUMPTRS as int) == 0 {
        None
    } else {
        match first_below(img, lay, u32_at(pg, topptr(0)), (fuel - 1) as nat) {
            Some(c) => Some(seq![p] + c),
            None => None,
        }
    }
}

/// What a step behind a leaf comes to, whatever the image holds.
pub enum Next {
    /// The chain of pages to the next leaf.
    Chain(Seq<int>),
    /// There is none.
    End,
    /// A page is not what it has to be.
    Broken,
}

/// The chain to the leaf that comes behind all leaves below `current`, which is reached by
/// way of the nodes `up`.
pub open spec fn next_chain(img: Seq<u8>, lay: Layout, up: Seq<int>, current: int) -> Next
    decreases up.len(),
{
    if up.len() == 0 {
        Next::End
    } else {
        let pg = page(img, lay.ps(), up.last());
        if !in_img(img, lay.ps(), up.last()) || u16_at(pg, 0) as u16 & PAGE_NODE != PAGE_NODE
            || u16_at(pg, NODE_NUMPTRS as int) == 0 {
            Next::Broken
        } else {
            match sibling(pg, lay, current, 0) {
                Sibling::Page(p) => match first_below(
                    img,
                    lay,
                    p,
                    img.len() as nat / lay.ps() as nat,
                ) {
                    Some(c) => Next::Chain(up + c),
                    None => Next::Broken,
                },
                Sibling::Last => next_chain(img, lay, up.drop_last(), up.last()),
                Sibling::Broken => Next::Broken,
            }
        }
    }
}

/// The chain to the leaf behind the one where `chain` ends.
pub open spec fn chain_after(img: Seq<u8>, lay: Layout, chain: Seq<int>) -> Next {
    if chain.len() == 0 {
        Next::Broken
    } else {
        next_chain(img, lay, chain.drop_last(), chain.last())
    }
}

/// A chain to the next leaf has pages.
pub(crate) proof fn lemma_next_pages(img: Seq<u8>, lay: Layout, up: Seq<int>, current: int)
    ensures
        next_chain(img, lay, up, current) matches Next::Chain(c) ==> c.len() > 0,
    decreases up.len(),
{
    if up.len() > 0 {
        lemma_next_pages(img, lay, up.drop_last(), up.last());
    }
}

/// The pages from `p` on when one always goes into the first child, down to a leaf, if
/// that takes no more than `fuel` steps.
pub open spec fn leftmost(img: Seq<u8>, lay: Layout, p: int, fuel: nat) -> Option<Seq<int>>
    decreases fuel,
{
    let pg = page(img, lay.ps(), p);
    let ty = u16_at(pg, 0) as u16;
    if !in_img(img, lay.ps(), p) {
        None
    } else if ty & PAGE_NODE == PAGE_NODE {
        if fuel == 0 {
            None
        } else {
            match leftmost(img, lay, u32_at(pg, 4), (fuel - 1) as nat) {
                Some(c) => Some(seq![p] + c),
                None => None,
            }
        }
    } else if ty & PAGE_LEAF == PAGE_LEAF {
        Some(seq![p])
    } else {
        None
    }
}

/// Whether `whole` is `rest` with `front` before it.
spec fn fronted(whole: Option<Seq<int>>, front: Seq<int>, rest: Option<Seq<int>>) -> bool {
    match rest {
        Some(c) => whole == Some(front + c),
        None => whole is None,
    }
}

/// Nothing before `whole` leaves `whole`.
proof fn lemma_front(whole: Option<Seq<int>>, front: Seq<int>, rest: Option<Seq<int>>)
    requires
        front.len() == 0,
        rest == whole,
    ensures
        fronted(whole, front, rest),
{
    if whole is Some {
        assert(front + whole->0 =~= whole->0);
    }
}

/// What the image holds at a place of the tree.
proof fn lemma_walk(img: Seq<u8>, lay: Layout, t: Tree, h: int, q: Seq<int>)
    requires
        holds(img, lay, t, h, true),
        distinct(t),
        leads(t, q),
    ensures
        holds(img, lay, part(t, q), h - q.len(), q.len() == 0),
        distinct(part(t, q)),
        q.len() <= h,
        part(t, q).pg() >= 1,
{
    lemma_holds_sub(img, lay, t, q, h, true);
    lemma_distinct_sub(t, q);
}

/// The last page that a way passes.
pub(crate) proof fn lemma_trail_last(t: Tree, q: Seq<int>)
    requires
        leads(t, q),
    ensures
        trail(t, q).len() > 0,
        trail(t, q).last() == part(t, q).pg(),
{
    lemma_trail_len(t, q);
    if q.len() > 0 {
        lemma_pop(t, q);
        lemma_push(t, q.drop_last(), q.last());
    }
}

/// The child behind child `at` of a node in the image.
proof fn lemma_sibling_kid(pg: Seq<u8>, lay: Layout, top: bool, node: Tree, at: int, m: int)
    requires
        node is Node,
        distinct(node),
        node_page(pg, lay, top, node.kids()),
        0 <= m <= at < node.kids().len(),
        node.kids()[at].pg() != 0,
    ensures
        sibling(pg, lay, node.kids()[at].pg(), m) == (if at + 1 < node.kids().len() {
            Sibling::Page(node.kids()[at + 1].pg())
        } else {
            Sibling::Last
        }),
    decreases at - m,
{
    let kids = node.kids();
    assert(u32_at(pg, topptr(m)) == kids[m].pg());
    if m == at {
        if at + 1 < kids.len() {
            assert(u32_at(pg, topptr(at + 1)) == kids[at + 1].pg());
        }
    } else {
        lemma_kid_pages(node, m, at);
        lemma_sibling_kid(pg, lay, top, node, at, m + 1);
    }
}

/// The entries before the child behind `at`.
proof fn lemma_sibling(t: Tree, up: Seq<int>, at: int, next: int)
    requires
        leads(t, up),
        part(t, up) is Node,
        0 <= next < part(t, up).kids().len(),
        next == 0 || next == at + 1,
    ensures
        next == 0 ==> before(t, up.push(next)).len() == before(t, up).len(),
        next == at + 1 && at >= 0 ==> before(t, up.push(next)).len() == before(
            t,
            up.push(at),
        ).len() + entries(part(t, up.push(at))).len(),
{
    let kids = part(t, up).kids();
    lemma_push(t, up, next);
    if next == 0 {
        assert(kids.take(0) =~= Seq::empty());
    } else {
        lemma_push(t, up, at);
        let front = kids.take(next);
        assert(front.drop_last() =~= kids.take(at));
        assert(front.last() == kids[at]);
    }
}

/// The entries up to the end of the last child are those up to the end of the node.
proof fn lemma_last_kid(t: Tree, up: Seq<int>, at: int)
    requires
        leads(t, up),
        part(t, up) is Node,
        at == part(t, up).kids().len() - 1,
        at >= 0,
    ensures
        before(t, up.push(at)).len() + entries(part(t, up.push(at))).len() == before(t, up).len()
            + entries(part(t, up)).len(),
{
    let kids = part(t, up).kids();
    lemma_push(t, up, at);
    assert(kids.drop_last() =~= kids.take(at));
}

/// A search in a leaf.
proof fn lemma_leaf_outcome(t: Tree, key: Seq<u8>)
    ensures
        t matches Tree::Leaf { key: k, .. } ==> {
            let es = entries(t);
            &&& is_key(es, key) <==> k == key
            &&& too_small(es, key) <==> lt(key, k)
            &&& too_big(es, key) <==> lt(k, key)
            &&& lt(key, k) ==> k != key && !lt(k, key)
            &&& lt(k, key) ==> k != key && !lt(key, k)
        },
{
    if t is Leaf {
        let k = t->key;
        let es = entries(t);
        assert(es[0].0 == k);
        if lt(key, k) {
            lemma_lt_apart(key, k);
        }
        if lt(k, key) {
            lemma_lt_apart(k, key);
        }
    }
}

/// A child of a node in the image.
proof fn lemma_kid(f: RmdbFetch<'_>, t: Tree, h: int, top: bool, i: int)
    requires
        t is Node,
        holds(f.mmap@, f.lay, t, h, top),
        sorted(entries(t)),
        0 <= i < t.kids().len(),
    ensures
        u32_at(page(f.mmap@, f.lay.ps(), t.pg()), topptr(i)) == t.kids()[i].pg(),
        holds(f.mmap@, f.lay, t.kids()[i], h - 1, false),
        sorted(entries(t.kids()[i])),
{
    lemma_kid_sorted(t.kids(), i);
}

/// What a search in a node comes to, by what it comes to in the child that it goes into.
proof fn lemma_return(
    img: Seq<u8>,
    lay: Layout,
    t: Tree,
    h: int,
    top: bool,
    key: Seq<u8>,
    i: int,
    r: Result<u32, RmdbError>,
)
    requires
        holds(img, lay, t, h, top),
        t is Node,
        sorted(entries(t)),
        t.kids().len() > 0,
        i == pick(t.kids(), key),
        !(t.kids().len() == 1 && too_big(entries(t.kids()[0]), key)),
        outcome(t.kids()[i], key, r) || (r matches Err(e) && e is KeyNotFound && !too_small(
            entries(t.kids()[0]),
            key,
        ) && below(t.kids(), key) < t.kids().len() && too_small(
            entries(t.kids()[below(t.kids(), key)]),
            key,
        )),
        outcome(t.kids()[i], key, r) ==> {
            ||| i == 0 && !too_big(entries(t.kids()[0]), key)
            ||| i == t.kids().len() - 1 && i > 0 && !too_small(entries(t.kids()[0]), key)
                && !too_small(entries(t.kids()[i]), key)
            ||| i == below(t.kids(), key) && !too_small(entries(t.kids()[0]), key) && !too_small(
                entries(t.kids()[i]),
                key,
            )
        },
    ensures
        outcome(t, key, r),
        passed(t, key) == seq![t.pg()] + passed(t.kids()[i], key),
{
    let kids = t.kids();
    lemma_no_gaps(img, lay, t, h, top);
    lemma_step(img, lay, t, h, top, key, i);
    lemma_row(kids, key);
    lemma_below(kids, key);
    lemma_pick(kids, key);
    lemma_kid_sorted(kids, i);
    lemma_outside(entries(kids[i]), key);
    lemma_outside(entries(t), key);
    let g = below(kids, key);
    if g < kids.len() {
        lemma_kid_sorted(kids, g);
        lemma_outside(entries(kids[g]), key);
    }
}

/// Numbers of pages added one behind the other.
proof fn lemma_nums(par: Seq<u32>, x: int, s: Seq<int>)
    ensures
        nums(par) + seq![x] + s == nums(par) + (seq![x] + s),
{
    assert(nums(par) + seq![x] + s =~= nums(par) + (seq![x] + s));
}

/// A page that is added to others comes before the pages behind it.
proof fn lemma_chain(par0: Seq<u32>, par1: Seq<u32>, p: u32)
    requires
        nums(par1) == nums(par0) + seq![p as int],
    ensures
        forall|c: Seq<int>| #[trigger] (nums(par1) + c) == nums(par0) + (seq![p as int] + c),
{
    assert forall|c: Seq<int>| #[trigger] (nums(par1) + c) == nums(par0) + (seq![p as int] + c) by {
        assert(nums(par1) + c =~= nums(par0) + (seq![p as int] + c));
    }
}

/// What begins with more begins with less.
proof fn lemma_prefix(a: Seq<u32>, b: Seq<u32>, c: Seq<u32>)
    requires
        a.len() <= b.len() <= c.len(),
        b.take(a.len() as int) == a,
        c.take(b.len() as int) == b,
    ensures
        c.take(a.len() as int) == a,
{
    assert(c.take(a.len() as int) =~= c.take(b.len() as int).take(a.len() as int));
}

/// A value in other pages fits in the image.
proof fn lemma_far(img: Seq<u8>, lay: Layout, val: Seq<u8>, first: int, count: int)
    requires
        lay.sane(),
    ensures
        far_data(img, lay, val, first, count) && count > 0 ==> crate::bytes::base_of(
            lay.ps(),
            first,
        ) + val.len() <= img.len(),
{
    if far_data(img, lay, val, first, count) && count > 0 {
        crate::bytes::lemma_run_fits(img, lay.ps(), first, count, val.len() as int);
    }
}

} // verus!
