//! Which way through the tree a search for a key takes.
use crate::bytes::{in_img, lemma_img_pages};
use crate::layout::Layout;
use crate::order::{lemma_lt_apart, lemma_lt_irreflexive, lemma_lt_total, lemma_lt_transitive, lt};
use crate::tree::{
    before, behind, bushy, distinct, entries, entries_of, has_page, height, holds, leads,
    lemma_entries_at, lemma_page_kid, lemma_page_root, lemma_put_entries, part, put, sorted, Entry,
    Tree,
};
use vstd::prelude::*;

verus! {

/// Whether `key` is a key of the entries.
pub open spec fn is_key(es: Seq<Entry>, key: Seq<u8>) -> bool {
    exists|i: int| 0 <= i < es.len() && #[trigger] es[i].0 == key
}

/// Whether `key` comes before all of the entries.
pub open spec fn too_small(es: Seq<Entry>, key: Seq<u8>) -> bool {
    es.len() > 0 && lt(key, es[0].0)
}

/// Whether `key` comes behind all of the entries.
pub open spec fn too_big(es: Seq<Entry>, key: Seq<u8>) -> bool {
    es.len() > 0 && lt(es.last().0, key)
}

/// Whether all keys of the entries come before `key`.
pub open spec fn all_before(es: Seq<Entry>, key: Seq<u8>) -> bool {
    forall|i: int| 0 <= i < es.len() ==> lt(#[trigger] es[i].0, key)
}

/// Whether all keys of the entries come behind `key`.
pub open spec fn all_behind(es: Seq<Entry>, key: Seq<u8>) -> bool {
    forall|i: int| 0 <= i < es.len() ==> lt(key, #[trigger] es[i].0)
}

/// How many of the trees have only keys before `key`.
pub open spec fn below(kids: Seq<Tree>, key: Seq<u8>) -> int
    decreases kids.len(),
{
    if kids.len() == 0 {
        0
    } else if too_big(entries(kids.last()), key) {
        kids.len() as int
    } else {
        below(kids.drop_last(), key)
    }
}

/// The last place that a bisection of `lo..=hi` looks at, where the first `g` places
/// are below what it looks for.
pub open spec fn last_probe(lo: int, hi: int, g: int) -> int
    decreases hi - lo + 1,
{
    let mid = (lo + hi) / 2;
    if lo >= hi {
        mid
    } else if mid < g {
        last_probe(mid + 1, hi, g)
    } else if mid == lo {
        mid
    } else {
        last_probe(lo, mid - 1, g)
    }
}

/// Into which child a search for `key` goes last.
pub open spec fn pick(kids: Seq<Tree>, key: Seq<u8>) -> int {
    let g = below(kids, key);
    let n = kids.len() as int;
    if g < n && !too_small(entries(kids[g]), key) {
        g
    } else if g == 0 {
        0
    } else if g == n {
        n - 1
    } else if n == 2 {
        1
    } else {
        last_probe(1, n - 2, g)
    }
}

/// The way of a search for `key` from node to node. A node with a single child, when
/// `key` comes behind all of it, is where it ends.
pub open spec fn way(t: Tree, key: Seq<u8>) -> Seq<int>
    decreases t,
{
    match t {
        Tree::Leaf { .. } => Seq::empty(),
        Tree::Node { kids, .. } => {
            let i = pick(kids, key);
            if kids.len() == 0 || kids[0] is Leaf || !(0 <= i < kids.len()) {
                Seq::empty()
            } else if kids.len() == 1 && too_big(entries(kids[0]), key) {
                Seq::empty()
            } else {
                seq![i] + way(kids[i], key)
            }
        },
    }
}

/// The node at which a search for `key` ends.
pub open spec fn last_node(t: Tree, key: Seq<u8>) -> Tree {
    part(t, way(t, key))
}

/// Whether a search for `key` ends at a node of leaves.
pub open spec fn reaches(t: Tree, key: Seq<u8>) -> bool {
    last_node(t, key).kids().len() == 0 || last_node(t, key).kids()[0] is Leaf
}

/// Which child of the last node has the key.
pub open spec fn slot(t: Tree, key: Seq<u8>) -> int {
    below(last_node(t, key).kids(), key)
}

/// The pages of the nodes on the way `q`.
pub open spec fn trail(t: Tree, q: Seq<int>) -> Seq<int>
    decreases q.len(),
{
    if q.len() == 0 {
        seq![t.pg()]
    } else {
        seq![t.pg()] + trail(t.kids()[q[0]], q.drop_first())
    }
}

/// Every tree of the row has entries.
pub open spec fn no_gaps(kids: Seq<Tree>) -> bool {
    forall|i: int| 0 <= i < kids.len() ==> entries(#[trigger] kids[i]).len() > 0
}

/// A tree below the root has entries.
pub proof fn lemma_not_empty(img: Seq<u8>, lay: Layout, t: Tree, h: int)
    requires
        holds(img, lay, t, h, false),
    ensures
        entries(t).len() > 0,
    decreases t,
{
    match t {
        Tree::Leaf { .. } => {},
        Tree::Node { kids, .. } => {
            let last = kids.last();
            assert(kids[kids.len() - 1] == last);
            lemma_not_empty(img, lay, last, h - 1);
        },
    }
}

/// The children of a node have entries.
pub proof fn lemma_no_gaps(img: Seq<u8>, lay: Layout, t: Tree, h: int, top: bool)
    requires
        holds(img, lay, t, h, top),
    ensures
        no_gaps(t.kids()),
{
    let kids = t.kids();
    assert forall|i: int| 0 <= i < kids.len() implies entries(#[trigger] kids[i]).len() > 0 by {
        lemma_not_empty(img, lay, kids[i], h - 1);
    }
}

/// A part of ascending entries ascends.
pub proof fn lemma_sorted_parts(a: Seq<Entry>, b: Seq<Entry>, c: Seq<Entry>)
    requires
        sorted(a + b + c),
    ensures
        sorted(a),
        sorted(b),
        sorted(c),
        forall|i: int, j: int|
            0 <= i < a.len() && 0 <= j < b.len() ==> lt(#[trigger] a[i].0, #[trigger] b[j].0),
        forall|i: int, j: int|
            0 <= i < b.len() && 0 <= j < c.len() ==> lt(#[trigger] b[i].0, #[trigger] c[j].0),
        forall|i: int, j: int|
            0 <= i < a.len() && 0 <= j < c.len() ==> lt(#[trigger] a[i].0, #[trigger] c[j].0),
{
    let s = a + b + c;
    assert forall|i: int| 0 <= i < a.len() implies #[trigger] a[i] == s[i] by {}
    assert forall|i: int| 0 <= i < b.len() implies #[trigger] b[i] == s[a.len() + i] by {}
    assert forall|i: int| 0 <= i < c.len() implies #[trigger] c[i] == s[a.len() + b.len() + i] by {}
}

/// The entries of a child lie between those of the children around it.
pub proof fn lemma_kid_sorted(kids: Seq<Tree>, i: int)
    requires
        sorted(entries_of(kids)),
        0 <= i < kids.len(),
    ensures
        sorted(entries(kids[i])),
        sorted(entries_of(kids.take(i))),
        sorted(entries_of(kids.skip(i + 1))),
        forall|a: int, b: int|
            0 <= a < entries_of(kids.take(i)).len() && 0 <= b < entries(kids[i]).len() ==> lt(
                #[trigger] entries_of(kids.take(i))[a].0,
                #[trigger] entries(kids[i])[b].0,
            ),
        forall|a: int, b: int|
            0 <= a < entries(kids[i]).len() && 0 <= b < entries_of(kids.skip(i + 1)).len() ==> lt(
                #[trigger] entries(kids[i])[a].0,
                #[trigger] entries_of(kids.skip(i + 1))[b].0,
            ),
{
    lemma_entries_at(kids, i);
    lemma_sorted_parts(
        entries_of(kids.take(i)),
        entries(kids[i]),
        entries_of(kids.skip(i + 1)),
    );
}

/// The keys of a child come before those of a later one.
pub proof fn lemma_kids_apart(kids: Seq<Tree>, i: int, j: int, a: int, b: int)
    requires
        sorted(entries_of(kids)),
        0 <= i < j < kids.len(),
        0 <= a < entries(kids[i]).len(),
        0 <= b < entries(kids[j]).len(),
    ensures
        lt(entries(kids[i])[a].0, entries(kids[j])[b].0),
{
    let front = kids.take(j);
    lemma_kid_sorted(kids, j);
    lemma_entries_at(front, i);
    assert(front[i] == kids[i]);
    let off = entries_of(front.take(i)).len();
    assert(entries_of(front)[off + a] == entries(kids[i])[a]);
}

/// Where a key stands to a sorted row of trees: behind the first `below`, not behind the
/// next, before all others.
pub proof fn lemma_below(kids: Seq<Tree>, key: Seq<u8>)
    requires
        sorted(entries_of(kids)),
        no_gaps(kids),
    ensures
        0 <= below(kids, key) <= kids.len(),
        forall|j: int| 0 <= j < below(kids, key) ==> too_big(entries(#[trigger] kids[j]), key),
        forall|j: int|
            below(kids, key) <= j < kids.len() ==> !too_big(entries(#[trigger] kids[j]), key),
        forall|j: int|
            below(kids, key) < j < kids.len() ==> too_small(entries(#[trigger] kids[j]), key),
    decreases kids.len(),
{
    if kids.len() > 0 {
        let n = kids.len() - 1;
        let front = kids.drop_last();
        lemma_kid_sorted(kids, n);
        assert(kids.take(n) =~= front);
        assert(no_gaps(front)) by {
            assert forall|i: int| 0 <= i < front.len() implies entries(#[trigger] front[i]).len()
                > 0 by {
                assert(front[i] == kids[i]);
            }
        }
        lemma_below(front, key);
        let g = below(kids, key);
        if too_big(entries(kids.last()), key) {
            assert forall|j: int| 0 <= j < g implies too_big(entries(#[trigger] kids[j]), key) by {
                if j < n {
                    let a = entries(kids[j]).len() - 1;
                    let b = entries(kids[n]).len() - 1;
                    lemma_kids_apart(kids, j, n, a, b);
                    lemma_lt_transitive(entries(kids[j])[a].0, entries(kids[n])[b].0, key);
                }
            }
        } else {
            assert(g == below(front, key));
            assert forall|j: int| 0 <= j < g implies too_big(entries(#[trigger] kids[j]), key) by {
                assert(front[j] == kids[j]);
            }
            assert forall|j: int| g <= j < kids.len() implies !too_big(
                entries(#[trigger] kids[j]),
                key,
            ) by {
                if j < n {
                    assert(front[j] == kids[j]);
                }
            }
            assert forall|j: int| g < j < kids.len() implies too_small(
                entries(#[trigger] kids[j]),
                key,
            ) by {
                if j < n {
                    assert(front[j] == kids[j]);
                } else {
                    let a = entries(kids[g]).len() - 1;
                    let x = entries(kids[g])[a].0;
                    lemma_kids_apart(kids, g, n, a, 0);
                    assert(front[g] == kids[g]);
                    lemma_lt_total(x, key);
                    if x != key {
                        lemma_lt_transitive(key, x, entries(kids[n])[0].0);
                    }
                }
            }
        }
    }
}

/// A key that is before or behind sorted entries is none of them.
pub proof fn lemma_outside(es: Seq<Entry>, key: Seq<u8>)
    requires
        sorted(es),
    ensures
        too_small(es, key) ==> all_behind(es, key) && !is_key(es, key) && !too_big(es, key),
        too_big(es, key) ==> all_before(es, key) && !is_key(es, key) && !too_small(es, key),
{
    if too_small(es, key) {
        assert forall|i: int| 0 <= i < es.len() implies lt(key, #[trigger] es[i].0) by {
            if i > 0 {
                lemma_lt_transitive(key, es[0].0, es[i].0);
            }
        }
        if is_key(es, key) {
            let i = choose|i: int| 0 <= i < es.len() && #[trigger] es[i].0 == key;
            lemma_lt_irreflexive(key);
        }
        assert(lt(key, es[es.len() - 1].0));
        lemma_lt_apart(key, es.last().0);
    }
    if too_big(es, key) {
        let n = es.len() - 1;
        assert forall|i: int| 0 <= i < es.len() implies lt(#[trigger] es[i].0, key) by {
            if i < n {
                lemma_lt_transitive(es[i].0, es[n].0, key);
            }
        }
        if is_key(es, key) {
            let i = choose|i: int| 0 <= i < es.len() && #[trigger] es[i].0 == key;
            lemma_lt_irreflexive(key);
        }
        assert(lt(es[0].0, key));
        lemma_lt_apart(es[0].0, key);
    }
}

/// How the entries of a row stand to those of its trees.
pub proof fn lemma_row(kids: Seq<Tree>, key: Seq<u8>)
    requires
        sorted(entries_of(kids)),
        no_gaps(kids),
    ensures
        ({
            let g = below(kids, key);
            let es = entries_of(kids);
            &&& kids.len() > 0 ==> es.len() > 0
            &&& kids.len() > 0 ==> (too_small(es, key) <==> too_small(entries(kids[0]), key))
            &&& kids.len() > 0 ==> (too_big(es, key) <==> g == kids.len())
            &&& is_key(es, key) <==> g < kids.len() && is_key(entries(kids[g]), key)
        }),
{
    let g = below(kids, key);
    let n = kids.len();
    let es = entries_of(kids);
    lemma_below(kids, key);
    if n > 0 {
        lemma_entries_at(kids, 0);
        assert(kids.take(0) =~= Seq::empty());
        assert(es[0] == entries(kids[0])[0]);
        assert(es.last() == entries(kids.last()).last());
        assert(kids[n - 1] == kids.last());
    }
    if is_key(es, key) {
        let i = choose|i: int| 0 <= i < es.len() && #[trigger] es[i].0 == key;
        lemma_find_kid(kids, i);
        let (k, a) = choose|k: int, a: int|
            0 <= k < kids.len() && 0 <= a < entries(kids[k]).len() && #[trigger] entries(kids[k])[a]
                == es[i];
        assert(entries(kids[k])[a].0 == key);
        assert(is_key(entries(kids[k]), key));
        lemma_kid_sorted(kids, k);
        lemma_outside(entries(kids[k]), key);
        assert(k == g);
    }
    if g < n && is_key(entries(kids[g]), key) {
        let a = choose|a: int|
            0 <= a < entries(kids[g]).len() && #[trigger] entries(kids[g])[a].0 == key;
        lemma_entries_at(kids, g);
        let off = entries_of(kids.take(g)).len();
        assert(es[off + a].0 == key);
    }
}

/// Every entry of a row is one of a tree in it.
pub proof fn lemma_find_kid(kids: Seq<Tree>, i: int)
    requires
        0 <= i < entries_of(kids).len(),
    ensures
        exists|k: int, a: int|
            0 <= k < kids.len() && 0 <= a < entries(kids[k]).len() && #[trigger] entries(kids[k])[a]
                == entries_of(kids)[i],
    decreases kids.len(),
{
    let front = kids.drop_last();
    let n = entries_of(front).len();
    if i < n {
        lemma_find_kid(front, i);
        let (k, a) = choose|k: int, a: int|
            0 <= k < front.len() && 0 <= a < entries(front[k]).len() && #[trigger] entries(
                front[k],
            )[a] == entries_of(front)[i];
        assert(front[k] == kids[k]);
        assert(entries(kids[k])[a] == entries_of(kids)[i]);
    } else {
        assert(entries(kids[kids.len() - 1])[i - n] == entries_of(kids)[i]);
    }
}

/// A bisection ends next to what it looks for.
pub proof fn lemma_last_probe(lo: int, hi: int, g: int)
    requires
        0 <= lo <= hi,
        lo <= g <= hi + 1,
    ensures
        lo <= last_probe(lo, hi, g) <= hi,
        last_probe(lo, hi, g) == g || last_probe(lo, hi, g) == g - 1,
    decreases hi - lo,
{
    let mid = (lo + hi) / 2;
    if lo < hi {
        if mid < g {
            lemma_last_probe(mid + 1, hi, g);
        } else if mid > lo {
            lemma_last_probe(lo, mid - 1, g);
        }
    }
}

/// A search goes into a child that the key belongs in: the children before have only
/// keys before it, those behind only keys behind it.
pub proof fn lemma_pick(kids: Seq<Tree>, key: Seq<u8>)
    requires
        sorted(entries_of(kids)),
        no_gaps(kids),
        kids.len() > 0,
    ensures
        ({
            let i = pick(kids, key);
            &&& 0 <= i < kids.len()
            &&& forall|j: int| 0 <= j < i ==> too_big(entries(#[trigger] kids[j]), key)
            &&& forall|j: int| i < j < kids.len() ==> too_small(entries(#[trigger] kids[j]), key)
            &&& is_key(entries_of(kids), key) ==> i == below(kids, key)
        }),
{
    let g = below(kids, key);
    let n = kids.len() as int;
    lemma_below(kids, key);
    lemma_row(kids, key);
    if g < n && !too_small(entries(kids[g]), key) {
    } else {
        if is_key(entries_of(kids), key) {
            lemma_kid_sorted(kids, g);
            lemma_outside(entries(kids[g]), key);
        }
        if g != 0 && g != n && n != 2 {
            lemma_last_probe(1, n - 2, g);
        }
    }
}

/// A row of trees whose keys all come before a key, put together.
pub(crate) proof fn lemma_all_before(kids: Seq<Tree>, n: int, key: Seq<u8>)
    requires
        sorted(entries_of(kids)),
        0 <= n <= kids.len(),
        forall|j: int| 0 <= j < n ==> too_big(entries(#[trigger] kids[j]), key),
    ensures
        all_before(entries_of(kids.take(n)), key),
{
    let es = entries_of(kids.take(n));
    assert forall|i: int| 0 <= i < es.len() implies lt(#[trigger] es[i].0, key) by {
        lemma_find_kid(kids.take(n), i);
        let (k, a) = choose|k: int, a: int|
            0 <= k < kids.take(n).len() && 0 <= a < entries(kids.take(n)[k]).len()
                && #[trigger] entries(kids.take(n)[k])[a] == es[i];
        assert(kids.take(n)[k] == kids[k]);
        lemma_kid_sorted(kids, k);
        lemma_outside(entries(kids[k]), key);
        assert(lt(entries(kids[k])[a].0, key));
    }
}

/// A row of trees whose keys all come behind a key, put together.
pub(crate) proof fn lemma_all_behind(kids: Seq<Tree>, n: int, key: Seq<u8>)
    requires
        sorted(entries_of(kids)),
        0 <= n <= kids.len(),
        forall|j: int| n <= j < kids.len() ==> too_small(entries(#[trigger] kids[j]), key),
    ensures
        all_behind(entries_of(kids.skip(n)), key),
{
    let es = entries_of(kids.skip(n));
    assert forall|i: int| 0 <= i < es.len() implies lt(key, #[trigger] es[i].0) by {
        lemma_find_kid(kids.skip(n), i);
        let (k, a) = choose|k: int, a: int|
            0 <= k < kids.skip(n).len() && 0 <= a < entries(kids.skip(n)[k]).len()
                && #[trigger] entries(kids.skip(n)[k])[a] == es[i];
        assert(kids.skip(n)[k] == kids[n + k]);
        lemma_kid_sorted(kids, n + k);
        lemma_outside(entries(kids[n + k]), key);
        assert(lt(key, entries(kids[n + k])[a].0));
    }
}

/// The way of a search leads to a node that the key belongs in.
pub proof fn lemma_way(
    img: Seq<u8>,
    lay: Layout,
    t: Tree,
    h: int,
    top: bool,
    key: Seq<u8>,
)
    requires
        holds(img, lay, t, h, top),
        t is Node,
        sorted(entries(t)),
    ensures
        leads(t, way(t, key)),
        last_node(t, key) is Node,
        way(t, key).len() < h,
        reaches(t, key) && last_node(t, key).kids().len() > 0 ==> way(t, key).len() == h - 1,
        bushy(t) ==> reaches(t, key),
        all_before(before(t, way(t, key)), key),
        all_behind(behind(t, way(t, key)), key),
        sorted(entries(last_node(t, key))),
        no_gaps(last_node(t, key).kids()),
        is_key(entries(t), key) ==> {
            let n = last_node(t, key);
            let i = slot(t, key);
            &&& reaches(t, key)
            &&& 0 <= i < n.kids().len()
            &&& n.kids()[i] is Leaf
            &&& n.kids()[i]->key == key
        },
    decreases t,
{
    let kids = t.kids();
    let w = way(t, key);
    lemma_no_gaps(img, lay, t, h, top);
    lemma_row(kids, key);
    if kids.len() == 0 {
    } else {
        lemma_pick(kids, key);
        let i = pick(kids, key);
        lemma_kid_sorted(kids, i);
        assert(holds(img, lay, kids[0], h - 1, false));
        if kids[0] is Leaf {
            assert(h == 1);
            if is_key(entries(t), key) {
                let g = below(kids, key);
                assert(holds(img, lay, kids[g], 0, false));
                assert(kids[g] is Leaf);
                let a = choose|a: int|
                    0 <= a < entries(kids[g]).len() && #[trigger] entries(kids[g])[a].0 == key;
                assert(entries(kids[g]) =~= seq![kids[g].entry()]);
            }
        } else if kids.len() == 1 && too_big(entries(kids[0]), key) {
            lemma_outside(entries(kids[0]), key);
        } else {
            assert(holds(img, lay, kids[i], h - 1, false));
            assert(kids[i] is Node);
            let rest = way(kids[i], key);
            lemma_way(img, lay, kids[i], h - 1, false, key);
            assert(w == seq![i] + rest);
            assert(w.drop_first() =~= rest);
            assert(w[0] == i);
            lemma_all_before(kids, i, key);
            lemma_all_behind(kids, i + 1, key);
            assert(last_node(t, key) == last_node(kids[i], key));
        }
    }
}

/// Whether the image holds the tree below page `root`: its keys ascend, and no page is
/// used twice.
pub open spec fn good(img: Seq<u8>, lay: Layout, root: int, t: Tree) -> bool {
    &&& t is Node
    &&& t.pg() == root
    &&& holds(img, lay, t, height(t), true)
    &&& distinct(t)
    &&& sorted(entries(t))
}

/// Whether `q` leads to the leaf with the `i`-th entry, past the pages `chain`.
pub open spec fn leads_to(t: Tree, q: Seq<int>, chain: Seq<int>, i: int) -> bool {
    &&& leads(t, q)
    &&& part(t, q) is Leaf
    &&& before(t, q).len() == i
    &&& trail(t, q) == chain
}

/// Whether `chain` holds the pages from the root to the leaf with the `i`-th entry.
pub open spec fn stands_at(t: Tree, chain: Seq<int>, i: int) -> bool {
    exists|q: Seq<int>| #[trigger] leads_to(t, q, chain, i)
}

/// One step further down a way.
pub proof fn lemma_push(t: Tree, q: Seq<int>, k: int)
    requires
        leads(t, q),
        part(t, q) is Node,
        0 <= k < part(t, q).kids().len(),
    ensures
        leads(t, q.push(k)),
        part(t, q.push(k)) == part(t, q).kids()[k],
        trail(t, q.push(k)) == trail(t, q).push(part(t, q).kids()[k].pg()),
        before(t, q.push(k)) == before(t, q) + entries_of(part(t, q).kids().take(k)),
        behind(t, q.push(k)) == entries_of(part(t, q).kids().skip(k + 1)) + behind(t, q),
    decreases q.len(),
{
    let r = q.push(k);
    if q.len() == 0 {
        reveal_with_fuel(leads, 2);
        reveal_with_fuel(part, 2);
        reveal_with_fuel(before, 2);
        reveal_with_fuel(behind, 2);
        assert(r.drop_first() =~= Seq::empty());
        assert(trail(t.kids()[k], r.drop_first()) =~= seq![t.kids()[k].pg()]);
        assert(trail(t, r) =~= trail(t, q).push(t.kids()[k].pg()));
        assert(before(t, r) =~= before(t, q) + entries_of(t.kids().take(k)));
        assert(behind(t, r) =~= entries_of(t.kids().skip(k + 1)) + behind(t, q));
    } else {
        let kid = t.kids()[q[0]];
        let rest = q.drop_first();
        lemma_push(kid, rest, k);
        assert(r.drop_first() =~= rest.push(k));
        assert(trail(t, r) =~= trail(t, q).push(part(t, q).kids()[k].pg()));
        assert(before(t, r) =~= before(t, q) + entries_of(part(t, q).kids().take(k)));
        assert(behind(t, r) =~= entries_of(part(t, q).kids().skip(k + 1)) + behind(t, q));
    }
}

/// One step back up a way.
pub proof fn lemma_pop(t: Tree, q: Seq<int>)
    requires
        leads(t, q),
        q.len() > 0,
    ensures
        leads(t, q.drop_last()),
        part(t, q.drop_last()) is Node,
        0 <= q.last() < part(t, q.drop_last()).kids().len(),
        q == q.drop_last().push(q.last()),
    decreases q.len(),
{
    assert(q =~= q.drop_last().push(q.last()));
    if q.len() == 1 {
        assert(q.drop_last() =~= Seq::empty());
    } else {
        let rest = q.drop_first();
        lemma_pop(t.kids()[q[0]], rest);
        assert(q.drop_last().drop_first() =~= rest.drop_last());
    }
}

/// A way passes one page more than it has steps.
pub proof fn lemma_trail_len(t: Tree, q: Seq<int>)
    ensures
        trail(t, q).len() == q.len() + 1,
        trail(t, q)[0] == t.pg(),
    decreases q.len(),
{
    if q.len() > 0 {
        lemma_trail_len(t.kids()[q[0]], q.drop_first());
    }
}

/// The pages on the way to a part stay where another part with the same page takes its place.
pub proof fn lemma_put_trail(t: Tree, q: Seq<int>, n: Tree)
    requires
        leads(t, q),
        n.pg() == part(t, q).pg(),
    ensures
        trail(put(t, q, n), q) == trail(t, q),
    decreases q.len(),
{
    if q.len() > 0 {
        lemma_put_trail(t.kids()[q[0]], q.drop_first(), n);
    }
}

/// The leaf at which a way ends has the entry behind those before the way.
pub proof fn lemma_stands(t: Tree, q: Seq<int>)
    requires
        leads(t, q),
        part(t, q) is Leaf,
    ensures
        before(t, q).len() < entries(t).len(),
        entries(t)[before(t, q).len() as int] == part(t, q).entry(),
{
    lemma_put_entries(t, q, part(t, q));
    let i = before(t, q).len() as int;
    assert(entries(part(t, q))[0] == part(t, q).entry());
    assert((before(t, q) + entries(part(t, q)) + behind(t, q))[i] == entries(part(t, q))[0]);
}

/// Two children of a node have different pages.
pub proof fn lemma_kid_pages(t: Tree, i: int, j: int)
    requires
        distinct(t),
        t is Node,
        0 <= i < t.kids().len(),
        0 <= j < t.kids().len(),
        i != j,
    ensures
        t.kids()[i].pg() != t.kids()[j].pg(),
{
    lemma_page_root(t.kids()[i]);
    lemma_page_root(t.kids()[j]);
    assert(has_page(t.kids()[i], t.kids()[i].pg()));
    assert(has_page(t.kids()[j], t.kids()[j].pg()));
}

/// The pages of the leftmost way down a tree.
spec fn spine(t: Tree) -> Seq<int>
    decreases t,
{
    match t {
        Tree::Leaf { page, .. } => seq![page],
        Tree::Node { page, kids } => if kids.len() == 0 {
            seq![page]
        } else {
            seq![page] + spine(kids[0])
        },
    }
}

/// The pages of the leftmost way down are all different, and in the file.
proof fn lemma_spine(img: Seq<u8>, lay: Layout, t: Tree, h: int, top: bool)
    requires
        holds(img, lay, t, h, top),
        distinct(t),
    ensures
        spine(t).no_duplicates(),
        forall|i: int|
            0 <= i < spine(t).len() ==> has_page(t, #[trigger] spine(t)[i]) && 1 <= spine(t)[i]
                && in_img(img, lay.ps(), spine(t)[i]),
        spine(t).len() >= height(t),
    decreases t,
{
    let s = spine(t);
    lemma_page_root(t);
    match t {
        Tree::Leaf { .. } => {},
        Tree::Node { page, kids } => {
            if kids.len() > 0 {
                lemma_spine(img, lay, kids[0], h - 1, false);
                let r = spine(kids[0]);
                assert forall|i: int| 0 <= i < s.len() implies has_page(t, #[trigger] s[i]) && 1
                    <= s[i] && in_img(img, lay.ps(), s[i]) by {
                    if i > 0 {
                        assert(s[i] == r[i - 1]);
                        lemma_page_kid(t, 0, r[i - 1]);
                    }
                }
                assert forall|i: int, j: int| 0 <= i < j < s.len() implies s[i] != s[j] by {
                    assert(s[j] == r[j - 1]);
                    assert(has_page(kids[0], r[j - 1]));
                    if i > 0 {
                        assert(s[i] == r[i - 1]);
                    }
                }
            }
        },
    }
}

/// A tree has no more levels than the image has pages.
pub proof fn lemma_depth(img: Seq<u8>, lay: Layout, t: Tree, h: int, top: bool)
    requires
        holds(img, lay, t, h, top),
        distinct(t),
        lay.sane(),
    ensures
        height(t) <= img.len() as int / lay.ps(),
{
    lemma_spine(img, lay, t, h, top);
    let s = spine(t);
    let n = img.len() as int / lay.ps();
    assert(0 <= n) by (nonlinear_arith)
        requires
            n == img.len() as int / lay.ps(),
            lay.ps() > 0,
    ;
    s.unique_seq_to_set();
    let all = vstd::set_lib::set_int_range(0, n);
    vstd::set_lib::lemma_int_range(0, n);
    assert(s.to_set().subset_of(all)) by {
        assert forall|p: int| s.to_set().contains(p) implies all.contains(p) by {
            let i = choose|i: int| 0 <= i < s.len() && s[i] == p;
            lemma_img_pages(img, lay.ps(), s[i]);
        }
    }
    vstd::set_lib::lemma_len_subset(s.to_set(), all);
}

} // verus!
