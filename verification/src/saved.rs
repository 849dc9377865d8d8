//! What of a database is saved: page 0, the tree that it names, and the map of free pages.
use crate::blocks::{in_free, lists_ok};
use crate::bytes::{in_img, page, same_page, u16_at, u32_at};
use crate::flags::ALL_FLAGS;
use crate::freemap::{lemma_map_frame, map_at, map_page, map_pages, root_of};
use crate::layout::{
    Layout, RMDB_FILEVER, RMDB_P_DBPAGES, RMDB_P_FLAGS, RMDB_P_PAGESIZE, RMDB_P_VER,
};
use crate::path::good;
use crate::tree::{has_page, height, lemma_holds_frame, plays, Role, Tree};
use vstd::prelude::*;

verus! {

/// The lists of free pages as they are saved, and the pages that their map takes.
pub struct Base {
    pub ls: Seq<Seq<u32>>,
    pub fp: int,
    pub fs: int,
}

/// Whether page `p` is one of the map's.
pub open spec fn in_map(b: Base, p: int) -> bool {
    b.fp <= p < b.fp + b.fs
}

/// Whether page `p` is saved.
pub open spec fn kept(t: Tree, b: Base, p: int) -> bool {
    p == 0 || in_map(b, p) || has_page(t, p)
}

/// Whether page `p` is a node or a leaf of the tree.
pub open spec fn is_index(t: Tree, p: int) -> bool {
    plays(t, p, Role::Node) || plays(t, p, Role::Leaf)
}

/// The type of page `p`.
pub open spec fn page_type(img: Seq<u8>, lay: Layout, p: int) -> int {
    u16_at(page(img, lay.ps(), p), 0)
}

/// How many pages the database has by what page 0 says.
pub open spec fn total_pages(img: Seq<u8>, lay: Layout) -> int {
    u32_at(page(img, lay.ps(), 0), RMDB_P_DBPAGES as int)
}

/// Whether page 0 names the layout.
pub open spec fn header(img: Seq<u8>, lay: Layout) -> bool {
    let pg = page(img, lay.ps(), 0);
    &&& pg[0] == 0x52 && pg[1] == 0x4d && pg[2] == 0x44 && pg[3] == 0x42
    &&& u32_at(pg, RMDB_P_VER as int) == RMDB_FILEVER
    &&& u32_at(pg, RMDB_P_FLAGS as int) == lay.flags.bits
    &&& u32_at(pg, RMDB_P_PAGESIZE as int) == lay.pagesize
    &&& lay.flags.bits & !ALL_FLAGS == 0
}

/// Whether the image holds a database whose root is `root`, with the tree and the map of
/// free pages. All pages are among those that page 0 counts. Of the pages in use none is
/// free, and none has two uses. Page 0, the root and the map have the right hashes.
pub open spec fn saved(img: Seq<u8>, lay: Layout, root: int, t: Tree, b: Base) -> bool {
    let np = total_pages(img, lay);
    &&& in_img(img, lay.ps(), 0)
    &&& header(img, lay)
    &&& lay.sealed(img, 0)
    &&& lay.sealed(img, root)
    &&& root_of(img, lay) == root
    &&& map_page(img, lay) == b.fp
    &&& map_pages(img, lay) == b.fs
    &&& good(img, lay, root, t)
    &&& map_at(img, lay, b.fp, b.fs, b.ls)
    &&& lists_ok(b.ls, np)
    &&& b.fp + b.fs <= np
    &&& forall|p: int| #[trigger] kept(t, b, p) ==> !in_free(b.ls, p)
    &&& forall|p: int| #[trigger] has_page(t, p) ==> 1 <= p < np && !in_map(b, p)
    &&& forall|p: int| #[trigger] is_index(t, p) ==> page_type(img, lay, p) != 0x8004
}

/// What is saved stays where its pages do.
pub proof fn lemma_saved_frame(
    x: Seq<u8>,
    y: Seq<u8>,
    lay: Layout,
    root: int,
    t: Tree,
    b: Base,
)
    requires
        saved(x, lay, root, t, b),
        lay.sane(),
        forall|p: int| #[trigger] kept(t, b, p) ==> same_page(x, y, lay.ps(), p),
    ensures
        saved(y, lay, root, t, b),
        total_pages(y, lay) == total_pages(x, lay),
{
    assert(kept(t, b, 0));
    assert(same_page(x, y, lay.ps(), 0));
    assert forall|p: int| #[trigger] has_page(t, p) implies same_page(x, y, lay.ps(), p) by {
        assert(kept(t, b, p));
    }
    lemma_holds_frame(x, y, lay, t, height(t), true);
    crate::tree::lemma_page_root(t);
    assert(same_page(x, y, lay.ps(), root));
    assert forall|p: int| b.fp <= p < b.fp + b.fs implies #[trigger] same_page(
        x,
        y,
        lay.ps(),
        p,
    ) by {
        assert(kept(t, b, p));
    }
    lemma_map_frame(x, y, lay, b.fp, b.fs, b.ls);
    assert forall|p: int| #[trigger] is_index(t, p) implies page_type(y, lay, p) != 0x8004 by {
        assert(has_page(t, p));
        assert(kept(t, b, p));
        crate::tree::lemma_index_in(x, lay, t, height(t), true, p);
        assert(same_page(x, y, lay.ps(), p));
    }
}

} // verus!
