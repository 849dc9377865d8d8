//! What the pages of a database hold, as a mathematical tree.
use crate::bytes::{in_img, lemma_run_same, page, run, same_page, u16_at, u32_at};
use crate::hash::sha256;
use crate::layout::{aligned, topptr, Layout};
use crate::order::lt;
use vstd::prelude::*;

verus! {

/// A leaf holds one key with its value: in its page, or in `count` pages from `first`
/// on. It is `right` if the hash that it has of a value in other pages is the right one, or
/// if it has none. A node holds its children.
pub enum Tree {
    Leaf { page: int, key: Seq<u8>, val: Seq<u8>, first: int, count: int, right: bool },
    Node { page: int, kids: Seq<Tree> },
}

/// Where the leaf of a key is, and whether it is right.
pub struct Mark {
    pub page: int,
    pub right: bool,
}

/// A key with its value and the mark of its leaf.
pub type Entry = (Seq<u8>, Seq<u8>, Mark);

impl Tree {
    /// The page of the root of the tree.
    pub open spec fn pg(self) -> int {
        match self {
            Tree::Leaf { page, .. } => page,
            Tree::Node { page, .. } => page,
        }
    }

    /// The children of a node.
    pub open spec fn kids(self) -> Seq<Tree> {
        match self {
            Tree::Leaf { .. } => Seq::empty(),
            Tree::Node { kids, .. } => kids,
        }
    }

    /// The entry of a leaf.
    pub open spec fn entry(self) -> Entry {
        (self->key, self->val, Mark { page: self.pg(), right: self->right })
    }
}

/// The keys and values of a tree, in the order of its leaves.
pub open spec fn entries(t: Tree) -> Seq<Entry>
    decreases t, 0nat,
{
    match t {
        Tree::Leaf { .. } => seq![t.entry()],
        Tree::Node { kids, .. } => entries_of(kids),
    }
}

/// The keys and values of several trees, one behind the other.
pub open spec fn entries_of(kids: Seq<Tree>) -> Seq<Entry>
    decreases kids, 1nat,
{
    if kids.len() == 0 {
        Seq::empty()
    } else {
        entries_of(kids.drop_last()) + entries(kids.last())
    }
}

/// The roles a page can have in a tree.
pub enum Role {
    Node,
    Leaf,
    Data,
}

/// Whether page `p` has the role `k` in a tree.
pub open spec fn plays(t: Tree, p: int, k: Role) -> bool
    decreases t,
{
    match t {
        Tree::Leaf { page, first, count, .. } => match k {
            Role::Node => false,
            Role::Leaf => p == page,
            Role::Data => first <= p < first + count,
        },
        Tree::Node { page, kids } => {
            ||| k is Node && p == page
            ||| exists|i: int| 0 <= i < kids.len() && plays(#[trigger] kids[i], p, k)
        },
    }
}

/// Whether page `p` is a page of the tree.
pub open spec fn has_page(t: Tree, p: int) -> bool {
    plays(t, p, Role::Node) || plays(t, p, Role::Leaf) || plays(t, p, Role::Data)
}

/// No page of the tree has two places in it.
pub open spec fn distinct(t: Tree) -> bool
    decreases t,
{
    match t {
        Tree::Leaf { page, first, count, .. } => !(first <= page < first + count),
        Tree::Node { page, kids } => {
            &&& forall|i: int|
                0 <= i < kids.len() ==> distinct(#[trigger] kids[i]) && !has_page(kids[i], page)
            &&& forall|i: int, j: int, p: int|
                #![trigger has_page(kids[i], p), has_page(kids[j], p)]
                0 <= i < kids.len() && 0 <= j < kids.len() && i != j && has_page(kids[i], p)
                    ==> !has_page(kids[j], p)
        },
    }
}

/// Whether `pg` is the page of a node with the children `kids`. The root has a type of
/// its own.
pub open spec fn node_page(pg: Seq<u8>, lay: Layout, top: bool, kids: Seq<Tree>) -> bool {
    &&& if top {
        u16_at(pg, 0) == 0x4004
    } else {
        u16_at(pg, 0) == 0x0004 || u16_at(pg, 0) == 0x8004
    }
    &&& u16_at(pg, 2) == kids.len()
    &&& topptr(kids.len() as int) <= lay.payload
    &&& forall|i: int|
        #![trigger kids[i]]
        0 <= i < kids.len() ==> u32_at(pg, topptr(i)) == kids[i].pg()
}

/// Where the value of a key of length `klen`, or what says where it is, begins in a leaf.
pub open spec fn data_ptr(klen: int) -> int {
    aligned(10 + klen)
}

/// The bytes of a leaf's cell behind the key, for a value in other pages.
pub open spec fn far_len(lay: Layout) -> int {
    if lay.flags.integrity() {
        40
    } else {
        8
    }
}

/// Whether `pg` is the page of a leaf with this key and value, which is `right` or not.
pub open spec fn leaf_page(
    pg: Seq<u8>,
    lay: Layout,
    key: Seq<u8>,
    val: Seq<u8>,
    first: int,
    count: int,
    right: bool,
) -> bool {
    let dp = data_ptr(key.len() as int);
    &&& u16_at(pg, 0) == 0x0008
    &&& u16_at(pg, 2) == 1
    &&& u16_at(pg, 4) == 8
    &&& key.len() <= 0x7fff
    &&& pg.subrange(10, 10 + key.len() as int) == key
    &&& if count == 0 {
        &&& u16_at(pg, 8) == key.len()
        &&& u16_at(pg, dp) == val.len()
        &&& dp + 2 + val.len() <= lay.payload
        &&& pg.subrange(dp + 2, dp + 2 + val.len()) == val
        &&& right
    } else {
        &&& u16_at(pg, 8) == key.len() + 0x8000
        &&& u32_at(pg, dp) == val.len()
        &&& u32_at(pg, dp + 4) == first
        &&& dp + far_len(lay) <= lay.payload
        &&& right == (lay.flags.integrity() ==> pg.subrange(dp + 8, dp + 40) == sha256(val))
    }
}

/// Whether `count` pages of the image from `first` on hold the value.
pub open spec fn far_data(img: Seq<u8>, lay: Layout, val: Seq<u8>, first: int, count: int) -> bool {
    &&& 1 <= first
    &&& in_img(img, lay.ps(), first + count - 1)
    &&& val.len() <= count * lay.ps()
    &&& run(img, lay.ps(), first, val.len() as int) == val
}

/// Whether the image holds the tree: all leaves `h` levels below its root, and no node
/// empty but for the root of all.
pub open spec fn holds(img: Seq<u8>, lay: Layout, t: Tree, h: int, top: bool) -> bool
    decreases t,
{
    &&& 1 <= t.pg() <= u32::MAX
    &&& in_img(img, lay.ps(), t.pg())
    &&& match t {
        Tree::Leaf { page: p, key, val, first, count, right } => {
            &&& h == 0
            &&& !top
            &&& count >= 0
            &&& leaf_page(page(img, lay.ps(), p), lay, key, val, first, count, right)
            &&& count > 0 ==> far_data(img, lay, val, first, count)
        },
        Tree::Node { page: p, kids } => {
            &&& h >= 1
            &&& top || kids.len() > 0
            &&& node_page(page(img, lay.ps(), p), lay, top, kids)
            &&& forall|i: int|
                0 <= i < kids.len() ==> holds(img, lay, #[trigger] kids[i], h - 1, false)
        },
    }
}

/// The number of levels of nodes.
pub open spec fn height(t: Tree) -> int
    decreases t,
{
    match t {
        Tree::Leaf { .. } => 0,
        Tree::Node { kids, .. } => if kids.len() == 0 {
            1
        } else {
            1 + height(kids[0])
        },
    }
}

/// The keys ascend.
pub open spec fn sorted(es: Seq<Entry>) -> bool {
    forall|i: int, j: int| 0 <= i < j < es.len() ==> lt(#[trigger] es[i].0, #[trigger] es[j].0)
}

/// Whether the numbers of children `q` lead somewhere in the tree.
pub open spec fn leads(t: Tree, q: Seq<int>) -> bool
    decreases q.len(),
{
    q.len() > 0 ==> t is Node && 0 <= q[0] < t.kids().len() && leads(
        t.kids()[q[0]],
        q.drop_first(),
    )
}

/// Where the numbers of children `q` lead.
pub open spec fn part(t: Tree, q: Seq<int>) -> Tree
    decreases q.len(),
{
    if q.len() == 0 {
        t
    } else {
        part(t.kids()[q[0]], q.drop_first())
    }
}

/// The tree with `n` where `q` leads.
pub open spec fn put(t: Tree, q: Seq<int>, n: Tree) -> Tree
    decreases q.len(),
{
    if q.len() == 0 {
        n
    } else {
        Tree::Node {
            page: t.pg(),
            kids: t.kids().update(q[0], put(t.kids()[q[0]], q.drop_first(), n)),
        }
    }
}

/// The entries before where `q` leads.
pub open spec fn before(t: Tree, q: Seq<int>) -> Seq<Entry>
    decreases q.len(),
{
    if q.len() == 0 {
        Seq::empty()
    } else {
        entries_of(t.kids().take(q[0])) + before(t.kids()[q[0]], q.drop_first())
    }
}

/// The entries behind where `q` leads.
pub open spec fn behind(t: Tree, q: Seq<int>) -> Seq<Entry>
    decreases q.len(),
{
    if q.len() == 0 {
        Seq::empty()
    } else {
        behind(t.kids()[q[0]], q.drop_first()) + entries_of(t.kids().skip(q[0] + 1))
    }
}

/// The entries of two rows of trees are those of the first, then those of the second.
pub proof fn lemma_entries_join(a: Seq<Tree>, b: Seq<Tree>)
    ensures
        entries_of(a + b) == entries_of(a) + entries_of(b),
    decreases b.len(),
{
    if b.len() == 0 {
        assert(a + b =~= a);
        assert(entries_of(a) + entries_of(b) =~= entries_of(a));
    } else {
        lemma_entries_join(a, b.drop_last());
        assert((a + b).drop_last() =~= a + b.drop_last());
        assert((a + b).last() == b.last());
        assert(entries_of(a + b) =~= entries_of(a) + entries_of(b));
    }
}

/// The entries of one tree in a row.
pub proof fn lemma_entries_one(t: Tree)
    ensures
        entries_of(seq![t]) == entries(t),
{
    let s = seq![t];
    assert(s.drop_last() =~= Seq::empty());
    assert(entries_of(s.drop_last()) =~= Seq::empty());
    assert(entries_of(s) =~= entries(t));
}

/// The entries of a row are those before a place, at it, and behind it.
pub proof fn lemma_entries_at(kids: Seq<Tree>, i: int)
    requires
        0 <= i < kids.len(),
    ensures
        entries_of(kids) == entries_of(kids.take(i)) + entries(kids[i]) + entries_of(
            kids.skip(i + 1),
        ),
{
    lemma_entries_join(kids.take(i), seq![kids[i]]);
    lemma_entries_one(kids[i]);
    lemma_entries_join(kids.take(i) + seq![kids[i]], kids.skip(i + 1));
    assert(kids =~= kids.take(i) + seq![kids[i]] + kids.skip(i + 1));
}

/// What a tree is put in for keeps the entries around it.
pub proof fn lemma_put_entries(t: Tree, q: Seq<int>, n: Tree)
    requires
        leads(t, q),
    ensures
        entries(put(t, q, n)) == before(t, q) + entries(n) + behind(t, q),
        entries(t) == before(t, q) + entries(part(t, q)) + behind(t, q),
    decreases q.len(),
{
    if q.len() == 0 {
        assert(before(t, q) + entries(n) + behind(t, q) =~= entries(n));
        assert(before(t, q) + entries(t) + behind(t, q) =~= entries(t));
    } else {
        let kids = t.kids();
        let i = q[0];
        let rest = q.drop_first();
        lemma_put_entries(kids[i], rest, n);
        let m = kids.update(i, put(kids[i], rest, n));
        lemma_entries_at(kids, i);
        lemma_entries_at(m, i);
        assert(m.take(i) =~= kids.take(i));
        assert(m.skip(i + 1) =~= kids.skip(i + 1));
        assert(entries(put(t, q, n)) =~= before(t, q) + entries(n) + behind(t, q));
        assert(entries(t) =~= before(t, q) + entries(part(t, q)) + behind(t, q));
    }
}

/// A way leads to what was put in at its end, past the same entries.
pub proof fn lemma_put_path(t: Tree, q: Seq<int>, n: Tree)
    requires
        leads(t, q),
    ensures
        leads(put(t, q, n), q),
        part(put(t, q, n), q) == n,
        before(put(t, q, n), q) == before(t, q),
        behind(put(t, q, n), q) == behind(t, q),
        q.len() > 0 ==> put(t, q, n).pg() == t.pg(),
    decreases q.len(),
{
    if q.len() > 0 {
        let kids = t.kids();
        let i = q[0];
        let rest = q.drop_first();
        lemma_put_path(kids[i], rest, n);
        let m = kids.update(i, put(kids[i], rest, n));
        assert(m.take(i) =~= kids.take(i));
        assert(m.skip(i + 1) =~= kids.skip(i + 1));
    }
}

/// Whether a node of nodes has two children at least, wherever it stands in the tree.
pub open spec fn bushy(t: Tree) -> bool
    decreases t,
{
    match t {
        Tree::Leaf { .. } => true,
        Tree::Node { kids, .. } => {
            &&& kids.len() == 1 ==> kids[0] is Leaf
            &&& forall|i: int| 0 <= i < kids.len() ==> bushy(#[trigger] kids[i])
        },
    }
}

/// A part of such a tree is such a tree.
pub proof fn lemma_bushy_part(t: Tree, q: Seq<int>)
    requires
        leads(t, q),
        bushy(t),
    ensures
        bushy(part(t, q)),
    decreases q.len(),
{
    if q.len() > 0 {
        assert(bushy(t.kids()[q[0]]));
        lemma_bushy_part(t.kids()[q[0]], q.drop_first());
    }
}

/// Another part of the same kind and height leaves the height of the tree as it is, and
/// the tree bushy, where the part is.
pub proof fn lemma_put_shape(t: Tree, q: Seq<int>, n: Tree)
    requires
        leads(t, q),
        n is Leaf == part(t, q) is Leaf,
    ensures
        height(n) == height(part(t, q)) ==> height(put(t, q, n)) == height(t),
        bushy(t) && bushy(n) ==> bushy(put(t, q, n)),
        q.len() > 0 ==> put(t, q, n) is Node,
        put(t, q, n) is Leaf == t is Leaf,
    decreases q.len(),
{
    if q.len() > 0 {
        let kids = t.kids();
        let i = q[0];
        let rest = q.drop_first();
        lemma_put_shape(kids[i], rest, n);
        let m = kids.update(i, put(kids[i], rest, n));
        assert(put(t, q, n).kids() == m);
        if bushy(t) && bushy(n) {
            assert forall|j: int| 0 <= j < m.len() implies bushy(#[trigger] m[j]) by {
                assert(bushy(kids[j]));
            }
        }
    }
}

/// The root's page is in no part of the tree but the whole.
pub proof fn lemma_root_apart(t: Tree, q: Seq<int>)
    requires
        leads(t, q),
        distinct(t),
        q.len() > 0,
    ensures
        !has_page(part(t, q), t.pg()),
        part(t, q).pg() != t.pg(),
{
    lemma_page_root(part(t, q));
    if has_page(part(t, q), t.pg()) {
        lemma_page_sub(t.kids()[q[0]], q.drop_first(), t.pg());
    }
}

/// The pages of a child are pages of the tree.
pub proof fn lemma_has_kid(t: Tree, i: int, p: int, k: Role)
    requires
        t is Node,
        0 <= i < t.kids().len(),
        plays(t.kids()[i], p, k),
    ensures
        plays(t, p, k),
{
}

/// The pages of a child are pages of the tree.
pub proof fn lemma_page_kid(t: Tree, i: int, p: int)
    requires
        t is Node,
        0 <= i < t.kids().len(),
        has_page(t.kids()[i], p),
    ensures
        has_page(t, p),
{
    if plays(t.kids()[i], p, Role::Node) {
        lemma_has_kid(t, i, p, Role::Node);
    } else if plays(t.kids()[i], p, Role::Leaf) {
        lemma_has_kid(t, i, p, Role::Leaf);
    } else {
        lemma_has_kid(t, i, p, Role::Data);
    }
}

/// The root is a page of the tree.
pub proof fn lemma_page_root(t: Tree)
    ensures
        has_page(t, t.pg()),
        t is Node ==> plays(t, t.pg(), Role::Node),
        t is Leaf ==> plays(t, t.pg(), Role::Leaf),
{
}

/// A page of a node's tree is the node's own, or one of a child.
pub proof fn lemma_page_cases(t: Tree, p: int) -> (i: int)
    requires
        t is Node,
        has_page(t, p),
        p != t.pg(),
    ensures
        0 <= i < t.kids().len(),
        has_page(t.kids()[i], p),
{
    let k = if plays(t, p, Role::Node) {
        Role::Node
    } else if plays(t, p, Role::Leaf) {
        Role::Leaf
    } else {
        Role::Data
    };
    let kids = t.kids();
    let i = choose|i: int| 0 <= i < kids.len() && plays(#[trigger] kids[i], p, k);
    assert(plays(kids[i], p, k));
    i
}

/// The pages of a part of a tree are pages of the tree.
pub proof fn lemma_page_sub(t: Tree, q: Seq<int>, p: int)
    requires
        leads(t, q),
        has_page(part(t, q), p),
    ensures
        has_page(t, p),
    decreases q.len(),
{
    if q.len() > 0 {
        lemma_page_sub(t.kids()[q[0]], q.drop_first(), p);
        lemma_page_kid(t, q[0], p);
    }
}

/// The roles of the pages of a part of a tree are those in the tree.
pub proof fn lemma_has_sub(t: Tree, q: Seq<int>, p: int, k: Role)
    requires
        leads(t, q),
        plays(part(t, q), p, k),
    ensures
        plays(t, p, k),
    decreases q.len(),
{
    if q.len() > 0 {
        lemma_has_sub(t.kids()[q[0]], q.drop_first(), p, k);
        lemma_has_kid(t, q[0], p, k);
    }
}

/// The pages of a tree after `n` was put in are those of `n`, and those outside of what
/// was there before.
pub proof fn lemma_put_has(t: Tree, q: Seq<int>, n: Tree, p: int, k: Role)
    requires
        leads(t, q),
        distinct(t),
    ensures
        plays(put(t, q, n), p, k) <==> plays(n, p, k) || (plays(t, p, k) && !has_page(part(t, q), p)),
    decreases q.len(),
{
    if q.len() == 0 {
    } else {
        let kids = t.kids();
        let i = q[0];
        let rest = q.drop_first();
        let u = put(t, q, n);
        let m = u.kids();
        lemma_put_has(kids[i], rest, n, p, k);
        assert(m[i] == put(kids[i], rest, n));
        if plays(u, p, k) {
            if k is Node && p == t.pg() {
                if has_page(part(t, q), p) {
                    lemma_page_sub(kids[i], rest, p);
                }
            } else {
                let j = choose|j: int| 0 <= j < m.len() && plays(#[trigger] m[j], p, k);
                if j != i {
                    assert(m[j] == kids[j]);
                    lemma_has_kid(t, j, p, k);
                    if has_page(part(t, q), p) {
                        lemma_page_sub(kids[i], rest, p);
                        assert(has_page(kids[j], p));
                    }
                } else if !plays(n, p, k) {
                    lemma_has_kid(t, i, p, k);
                }
            }
        }
        if plays(n, p, k) {
            lemma_has_kid(u, i, p, k);
        }
        if plays(t, p, k) && !has_page(part(t, q), p) {
            if !(k is Node && p == t.pg()) {
                let j = choose|j: int| 0 <= j < kids.len() && plays(#[trigger] kids[j], p, k);
                assert(plays(m[j], p, k));
                lemma_has_kid(u, j, p, k);
            }
        }
    }
}

/// The pages of a tree after `n` was put in.
pub proof fn lemma_put_page(t: Tree, q: Seq<int>, n: Tree, p: int)
    requires
        leads(t, q),
        distinct(t),
    ensures
        has_page(put(t, q, n), p) <==> has_page(n, p) || (has_page(t, p) && !has_page(
            part(t, q),
            p,
        )),
{
    lemma_put_has(t, q, n, p, Role::Node);
    lemma_put_has(t, q, n, p, Role::Leaf);
    lemma_put_has(t, q, n, p, Role::Data);
}

/// A part of a tree with distinct pages has distinct pages.
pub proof fn lemma_distinct_sub(t: Tree, q: Seq<int>)
    requires
        leads(t, q),
        distinct(t),
    ensures
        distinct(part(t, q)),
    decreases q.len(),
{
    if q.len() > 0 {
        lemma_distinct_sub(t.kids()[q[0]], q.drop_first());
    }
}

/// Pages stay distinct where what is put in brings no page that stands elsewhere.
pub proof fn lemma_put_distinct(t: Tree, q: Seq<int>, n: Tree)
    requires
        leads(t, q),
        distinct(t),
        distinct(n),
        forall|p: int| #[trigger]
            has_page(n, p) && has_page(t, p) ==> has_page(part(t, q), p),
    ensures
        distinct(put(t, q, n)),
    decreases q.len(),
{
    if q.len() > 0 {
        let kids = t.kids();
        let i = q[0];
        let rest = q.drop_first();
        let u = put(t, q, n);
        let m = u.kids();
        assert forall|p: int| #[trigger] has_page(n, p) && has_page(kids[i], p) implies has_page(
            part(kids[i], rest),
            p,
        ) by {
            lemma_page_kid(t, i, p);
        }
        lemma_put_distinct(kids[i], rest, n);
        assert(m[i] == put(kids[i], rest, n));
        assert forall|j: int, p: int| 0 <= j < kids.len() && j != i && #[trigger] has_page(
            kids[j],
            p,
        ) implies !has_page(m[i], p) by {
            lemma_put_page(kids[i], rest, n, p);
            lemma_page_kid(t, j, p);
            if has_page(n, p) {
                lemma_page_sub(kids[i], rest, p);
            }
        }
        assert forall|j: int| 0 <= j < m.len() implies distinct(#[trigger] m[j]) && !has_page(
            m[j],
            u.pg(),
        ) by {
            if j == i {
                lemma_put_page(kids[i], rest, n, t.pg());
                lemma_page_root(t);
                if has_page(n, t.pg()) {
                    lemma_page_sub(kids[i], rest, t.pg());
                }
            } else {
                assert(m[j] == kids[j]);
            }
        }
        assert forall|j: int, l: int, p: int|
            #![trigger has_page(m[j], p), has_page(m[l], p)]
            0 <= j < m.len() && 0 <= l < m.len() && j != l && has_page(m[j], p) implies !has_page(
            m[l],
            p,
        ) by {
            if j != i {
                assert(m[j] == kids[j]);
                assert(has_page(kids[j], p));
            }
            if l != i {
                assert(m[l] == kids[l]);
                if has_page(kids[l], p) {
                    assert(has_page(kids[j], p) || j == i);
                }
            }
        }
    }
}

/// Whether all pages of a tree are the same in two images.
pub open spec fn same_pages(a: Seq<u8>, b: Seq<u8>, lay: Layout, t: Tree) -> bool {
    forall|p: int| #[trigger] has_page(t, p) ==> same_page(a, b, lay.ps(), p)
}

/// An image with the same pages holds the same tree.
pub proof fn lemma_holds_frame(
    a: Seq<u8>,
    b: Seq<u8>,
    lay: Layout,
    t: Tree,
    h: int,
    top: bool,
)
    requires
        holds(a, lay, t, h, top),
        same_pages(a, b, lay, t),
        lay.sane(),
    ensures
        holds(b, lay, t, h, top),
    decreases t,
{
    lemma_page_root(t);
    assert(same_page(a, b, lay.ps(), t.pg()));
    match t {
        Tree::Leaf { page: p, key, val, first, count, .. } => {
            if count > 0 {
                assert forall|r: int| first <= r < first + count implies #[trigger] same_page(
                    a,
                    b,
                    lay.ps(),
                    r,
                ) by {
                    assert(has_page(t, r));
                }
                lemma_run_same(a, b, lay.ps(), first, count, val.len() as int);
                assert(same_page(a, b, lay.ps(), first + count - 1));
            }
        },
        Tree::Node { page: p, kids } => {
            assert forall|i: int| 0 <= i < kids.len() implies holds(
                b,
                lay,
                #[trigger] kids[i],
                h - 1,
                false,
            ) by {
                assert forall|r: int| #[trigger] has_page(kids[i], r) implies same_page(
                    a,
                    b,
                    lay.ps(),
                    r,
                ) by {
                    lemma_page_kid(t, i, r);
                }
                lemma_holds_frame(a, b, lay, kids[i], h - 1, false);
            }
        },
    }
}

/// An image that holds a tree holds its parts.
pub proof fn lemma_holds_sub(
    img: Seq<u8>,
    lay: Layout,
    t: Tree,
    q: Seq<int>,
    h: int,
    top: bool,
)
    requires
        holds(img, lay, t, h, top),
        leads(t, q),
    ensures
        holds(img, lay, part(t, q), h - q.len(), top && q.len() == 0),
    decreases q.len(),
{
    if q.len() > 0 {
        lemma_holds_sub(img, lay, t.kids()[q[0]], q.drop_first(), h - 1, false);
    }
}

/// An image that holds a node in the page of another, and the other pages of a tree as
/// they were, holds the tree with the one node in place of the other.
pub proof fn lemma_holds_put(
    a: Seq<u8>,
    b: Seq<u8>,
    lay: Layout,
    t: Tree,
    q: Seq<int>,
    n: Tree,
    h: int,
    top: bool,
)
    requires
        holds(a, lay, t, h, top),
        distinct(t),
        leads(t, q),
        q.len() == 0 || n.pg() == part(t, q).pg(),
        holds(b, lay, n, h - q.len(), top && q.len() == 0),
        forall|p: int| #[trigger]
            has_page(t, p) && !has_page(part(t, q), p) ==> same_page(a, b, lay.ps(), p),
        lay.sane(),
    ensures
        holds(b, lay, put(t, q, n), h, top),
    decreases q.len(),
{
    if q.len() > 0 {
        let kids = t.kids();
        let i = q[0];
        let rest = q.drop_first();
        let u = put(t, q, n);
        let m = u.kids();
        assert forall|p: int| #[trigger]
            has_page(kids[i], p) && !has_page(part(kids[i], rest), p) implies same_page(
            a,
            b,
            lay.ps(),
            p,
        ) by {
            lemma_page_kid(t, i, p);
        }
        lemma_holds_put(a, b, lay, kids[i], rest, n, h - 1, false);
        assert forall|j: int| 0 <= j < m.len() implies holds(
            b,
            lay,
            #[trigger] m[j],
            h - 1,
            false,
        ) by {
            if j != i {
                assert(m[j] == kids[j]);
                assert forall|p: int| #[trigger] has_page(kids[j], p) implies same_page(
                    a,
                    b,
                    lay.ps(),
                    p,
                ) by {
                    lemma_page_kid(t, j, p);
                    if has_page(part(t, q), p) {
                        lemma_page_sub(kids[i], rest, p);
                    }
                }
                lemma_holds_frame(a, b, lay, kids[j], h - 1, false);
            }
        }
        lemma_page_root(t);
        assert(same_page(a, b, lay.ps(), t.pg())) by {
            if has_page(part(t, q), t.pg()) {
                lemma_page_sub(kids[i], rest, t.pg());
            }
        }
        assert forall|j: int| #![trigger m[j]] 0 <= j < m.len() implies m[j].pg() == kids[j].pg() by {
            if j == i {
                if rest.len() == 0 {
                    assert(m[i] == n);
                }
            }
        }
        let pg = page(b, lay.ps(), t.pg());
        assert forall|j: int| #![trigger m[j]] 0 <= j < m.len() implies u32_at(pg, topptr(j))
            == m[j].pg() by {
            assert(kids[j].pg() == m[j].pg());
        }
        assert(node_page(pg, lay, top, m));
    }
}

/// The height of a tree in an image is how far its leaves are below the root.
pub proof fn lemma_height(img: Seq<u8>, lay: Layout, t: Tree, h: int, top: bool)
    requires
        holds(img, lay, t, h, top),
    ensures
        (t.kids().len() > 0 || t is Leaf) ==> height(t) == h,
        height(t) >= 0,
    decreases t,
{
    match t {
        Tree::Leaf { .. } => {},
        Tree::Node { kids, .. } => {
            if kids.len() > 0 {
                lemma_height(img, lay, kids[0], h - 1, false);
                assert(holds(img, lay, kids[0], h - 1, false));
                assert(kids[0].kids().len() > 0 || kids[0] is Leaf);
            }
        },
    }
}

/// The pages of the nodes and leaves of a tree are in the image.
pub proof fn lemma_index_in(
    img: Seq<u8>,
    lay: Layout,
    t: Tree,
    h: int,
    top: bool,
    p: int,
)
    requires
        holds(img, lay, t, h, top),
        plays(t, p, Role::Node) || plays(t, p, Role::Leaf),
    ensures
        in_img(img, lay.ps(), p),
        p >= 1,
    decreases t,
{
    match t {
        Tree::Leaf { .. } => {},
        Tree::Node { page, kids } => {
            if p != page {
                let k = if plays(t, p, Role::Node) {
                    Role::Node
                } else {
                    Role::Leaf
                };
                let i = choose|i: int| 0 <= i < kids.len() && plays(#[trigger] kids[i], p, k);
                lemma_index_in(img, lay, kids[i], h - 1, false, p);
            }
        },
    }
}

/// What an image holds below a page is one row of entries.
pub proof fn lemma_same_entries(
    img: Seq<u8>,
    lay: Layout,
    t: Tree,
    u: Tree,
    h: int,
    g: int,
    top: bool,
)
    requires
        lay.sane(),
        holds(img, lay, t, h, top),
        holds(img, lay, u, g, top),
        t.pg() == u.pg(),
    ensures
        entries(t) == entries(u),
    decreases t,
{
    let pg = page(img, lay.ps(), t.pg());
    match (t, u) {
        (
            Tree::Leaf { key, val, first, count, .. },
            Tree::Leaf { key: key2, val: val2, first: first2, count: count2, .. },
        ) => {
            assert(key.len() == key2.len());
            assert(key == key2);
            assert((count == 0) == (count2 == 0));
            if count == 0 {
                assert(val == val2);
            } else {
                assert(val.len() == val2.len());
                assert(first == first2);
                assert(val == val2);
            }
        },
        (Tree::Node { kids, .. }, Tree::Node { kids: kids2, .. }) => {
            assert(kids.len() == kids2.len());
            assert forall|i: int| 0 <= i < kids.len() implies entries(#[trigger] kids[i]) == entries(
                kids2[i],
            ) by {
                assert(u32_at(pg, topptr(i)) == kids[i].pg());
                assert(u32_at(pg, topptr(i)) == kids2[i].pg());
                lemma_same_entries(img, lay, kids[i], kids2[i], h - 1, g - 1, false);
            }
            lemma_same_row(kids, kids2);
        },
        _ => {
            assert(false);
        },
    }
}

/// Rows of trees with the same entries.
pub proof fn lemma_same_row(a: Seq<Tree>, b: Seq<Tree>)
    requires
        a.len() == b.len(),
        forall|i: int| 0 <= i < a.len() ==> entries(#[trigger] a[i]) == entries(b[i]),
    ensures
        entries_of(a) == entries_of(b),
    decreases a.len(),
{
    if a.len() > 0 {
        let n = a.len() - 1;
        assert(entries(a[n]) == entries(b[n]));
        assert forall|i: int| 0 <= i < a.drop_last().len() implies entries(
            #[trigger] a.drop_last()[i],
        ) == entries(b.drop_last()[i]) by {
            assert(entries(a[i]) == entries(b[i]));
        }
        lemma_same_row(a.drop_last(), b.drop_last());
    }
}

} // verus!
