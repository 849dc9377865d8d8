//! Sorted entries as a map from keys to values.
use crate::order::{lemma_lt_irreflexive, lt};
use crate::path::{all_before, all_behind, is_key};
use crate::tree::{sorted, Entry, Mark};
use vstd::prelude::*;

verus! {

/// Where among the entries the key is.
pub open spec fn place(es: Seq<Entry>, key: Seq<u8>) -> int {
    choose|i: int| 0 <= i < es.len() && #[trigger] es[i].0 == key
}

/// The entries as a map from keys to values.
pub open spec fn contents(es: Seq<Entry>) -> Map<Seq<u8>, Seq<u8>> {
    Map::new(|k: Seq<u8>| is_key(es, k), |k: Seq<u8>| es[place(es, k)].1)
}

/// The entries as a map from keys to the marks of their leaves.
pub open spec fn marks(es: Seq<Entry>) -> Map<Seq<u8>, Mark> {
    Map::new(|k: Seq<u8>| is_key(es, k), |k: Seq<u8>| es[place(es, k)].2)
}

/// A key has one place among sorted entries.
pub proof fn lemma_place(es: Seq<Entry>, i: int)
    requires
        sorted(es),
        0 <= i < es.len(),
    ensures
        is_key(es, es[i].0),
        place(es, es[i].0) == i,
        contents(es).dom().contains(es[i].0),
        contents(es)[es[i].0] == es[i].1,
        marks(es).dom().contains(es[i].0),
        marks(es)[es[i].0] == es[i].2,
{
    let key = es[i].0;
    assert(is_key(es, key));
    let j = place(es, key);
    assert(0 <= j < es.len() && es[j].0 == key);
    lemma_lt_irreflexive(key);
    if j < i {
        assert(lt(es[j].0, es[i].0));
    } else if i < j {
        assert(lt(es[i].0, es[j].0));
    }
}

/// No entries are no map.
pub proof fn lemma_contents_empty()
    ensures
        contents(Seq::empty()) == Map::<Seq<u8>, Seq<u8>>::empty(),
{
    assert(contents(Seq::empty()) =~= Map::<Seq<u8>, Seq<u8>>::empty());
}

/// An entry in its place between others.
pub proof fn lemma_contents_insert(a: Seq<Entry>, b: Seq<Entry>, e: Entry)
    requires
        sorted(a + b),
        all_before(a, e.0),
        all_behind(b, e.0),
    ensures
        sorted(a + seq![e] + b),
        contents(a + seq![e] + b) == contents(a + b).insert(e.0, e.1),
        marks(a + seq![e] + b) == marks(a + b).insert(e.0, e.2),
        !is_key(a + b, e.0),
{
    let key = e.0;
    let es = a + b;
    let fs = a + seq![e] + b;
    let n = a.len() as int;
    assert forall|i: int| 0 <= i < es.len() implies #[trigger] es[i] == fs[if i < n {
        i
    } else {
        i + 1
    }] by {}
    assert forall|i: int, j: int| 0 <= i < j < fs.len() implies lt(
        #[trigger] fs[i].0,
        #[trigger] fs[j].0,
    ) by {
        if j < n {
            assert(lt(es[i].0, es[j].0));
        } else if j == n {
            assert(fs[i] == a[i]);
        } else if i < n {
            assert(lt(es[i].0, es[j - 1].0));
        } else if i == n {
            assert(fs[j] == b[j - n - 1]);
        } else {
            assert(lt(es[i - 1].0, es[j - 1].0));
        }
    }
    assert forall|i: int| 0 <= i < es.len() implies #[trigger] es[i].0 != key by {
        if i < n {
            assert(es[i] == a[i]);
            lemma_lt_irreflexive(key);
        } else {
            assert(es[i] == b[i - n]);
            lemma_lt_irreflexive(key);
        }
    }
    let m = contents(es).insert(key, e.1);
    let ms = marks(es).insert(key, e.2);
    assert(fs[n].0 == key);
    lemma_place(fs, n);
    assert forall|k: Seq<u8>| #[trigger] contents(fs).dom().contains(k) == m.dom().contains(k) by {
        if is_key(fs, k) && k != key {
            let i = place(fs, k);
            assert(fs[i].0 == k);
            let j = if i < n {
                i
            } else {
                i - 1
            };
            assert(es[j] == fs[i]);
            assert(es[j].0 == k);
        }
        if is_key(es, k) {
            let j = place(es, k);
            let i = if j < n {
                j
            } else {
                j + 1
            };
            assert(fs[i].0 == k);
        }
    }
    assert forall|k: Seq<u8>| m.dom().contains(k) implies #[trigger] contents(fs)[k] == m[k]
        && marks(fs)[k] == ms[k] by {
        if k != key {
            let j = place(es, k);
            assert(es[j].0 == k);
            let i = if j < n {
                j
            } else {
                j + 1
            };
            assert(fs[i] == es[j]);
            lemma_place(fs, i);
        }
    }
    assert(contents(fs) =~= m);
    assert forall|k: Seq<u8>| #[trigger] marks(fs).dom().contains(k) == ms.dom().contains(k) by {
        assert(contents(fs).dom().contains(k) == m.dom().contains(k));
    }
    assert forall|k: Seq<u8>| ms.dom().contains(k) implies #[trigger] marks(fs)[k] == ms[k] by {
        assert(m.dom().contains(k));
        assert(contents(fs)[k] == m[k]);
    }
    assert(marks(fs) =~= ms);
}

/// An entry less.
pub proof fn lemma_contents_remove(a: Seq<Entry>, b: Seq<Entry>, e: Entry)
    requires
        sorted(a + seq![e] + b),
    ensures
        sorted(a + b),
        contents(a + b) == contents(a + seq![e] + b).remove(e.0),
        marks(a + b) == marks(a + seq![e] + b).remove(e.0),
        all_before(a, e.0),
        all_behind(b, e.0),
{
    let key = e.0;
    let fs = a + seq![e] + b;
    let es = a + b;
    let n = a.len() as int;
    assert(fs[n].0 == key);
    assert forall|i: int| 0 <= i < a.len() implies lt(#[trigger] a[i].0, key) by {
        assert(fs[i] == a[i]);
        assert(lt(fs[i].0, fs[n].0));
    }
    assert forall|i: int| 0 <= i < b.len() implies lt(key, #[trigger] b[i].0) by {
        assert(fs[n + 1 + i] == b[i]);
        assert(lt(fs[n].0, fs[n + 1 + i].0));
    }
    assert forall|i: int, j: int| 0 <= i < j < es.len() implies lt(
        #[trigger] es[i].0,
        #[trigger] es[j].0,
    ) by {
        let i2 = if i < n {
            i
        } else {
            i + 1
        };
        let j2 = if j < n {
            j
        } else {
            j + 1
        };
        assert(es[i] == fs[i2]);
        assert(es[j] == fs[j2]);
        assert(lt(fs[i2].0, fs[j2].0));
    }
    lemma_contents_insert(a, b, e);
    assert(contents(es).insert(key, e.1).remove(key) =~= contents(es)) by {
        assert(!is_key(es, key));
        assert(!contents(es).dom().contains(key));
    }
    assert(marks(es).insert(key, e.2).remove(key) =~= marks(es)) by {
        assert(!is_key(es, key));
        assert(!marks(es).dom().contains(key));
    }
}

/// An entry in place of another with the same key.
pub proof fn lemma_contents_update(a: Seq<Entry>, b: Seq<Entry>, e: Entry, new: Entry)
    requires
        sorted(a + seq![e] + b),
        new.0 == e.0,
    ensures
        sorted(a + seq![new] + b),
        contents(a + seq![new] + b) == contents(a + seq![e] + b).insert(e.0, new.1),
        marks(a + seq![new] + b) == marks(a + seq![e] + b).insert(e.0, new.2),
{
    lemma_contents_remove(a, b, e);
    lemma_contents_insert(a, b, new);
    let m = contents(a + seq![e] + b);
    assert(m.remove(e.0).insert(e.0, new.1) =~= m.insert(e.0, new.1));
    let ms = marks(a + seq![e] + b);
    assert(ms.remove(e.0).insert(e.0, new.2) =~= ms.insert(e.0, new.2));
}

} // verus!
