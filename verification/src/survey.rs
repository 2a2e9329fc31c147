//! Telling what can be read from pages that may not be those of a database.
use vstd::prelude::*;
use crate::btree_walk::countable;
use crate::bytes::read_u16;
use crate::constants::{NodeType, PageId, PAGE_SIZE};
use crate::counts::lemma_key_count;
use crate::error::Result;
use crate::node::{
    child_at, collect_children, entries_of, in_page, info, node_kind, num_keys, read_header,
    read_key_info, readable, MAX_KEYS,
};
use crate::page::Page;
use crate::pager::{addressable, Pager, Pages};
use crate::store::{has_tree, in_reach, lemma_reach_child, lemma_tree_of, rooted, tree_of};
use crate::tree::{
    forest_depth, forest_nodes, lemma_forest_add, lemma_forest_around, lemma_forest_one, Tree,
};
use crate::tree_laws::lemma_held_unique;

verus! {

/// The most levels of a tree that is walked without being known to be sound.
pub const MAX_LEVELS: u32 = 64;

/// The pages hold a tree, from the root page on, that is neither too deep nor too large to be
/// walked.
pub open spec fn walkable(pages: Pages, root: PageId) -> bool {
    &&& has_tree(pages, root)
    &&& tree_of(pages, root).depth() <= MAX_LEVELS
    &&& tree_of(pages, root).node_count() <= u32::MAX
}

/// A tree that can be walked can be counted.
pub proof fn lemma_walkable(pages: Pages, root: PageId)
    requires
        walkable(pages, root),
    ensures
        countable(tree_of(pages, root)),
        tree_of(pages, root).entries().len() <= 64 * u32::MAX,
{
    let t = tree_of(pages, root);
    assert(rooted(pages, root, t));
    lemma_key_count(t, pages);
}

/// The pager has read pages and is otherwise as it was.
pub open spec fn peeked(p: &Pager, q: &Pager) -> bool {
    &&& q.wf()
    &&& q.pages() == p.pages()
    &&& q.file_bytes() == p.file_bytes()
    &&& q.pending() == p.pending()
    &&& q.dirty_writes() == p.dirty_writes()
    &&& q.next() == p.next()
}

/// Whether the page can be read as a node.
fn is_node(page: &Page) -> (r: bool)
    ensures
        r == readable(page.data@),
{
    let ghost p = page.data@;
    let b = page.bytes();
    if b[0] != 1 && b[0] != 2 {
        return false;
    }
    let n: u16 = read_u16(b, 1);
    if n > MAX_KEYS {
        return false;
    }
    let mut i: u16 = 0;
    while i < n
        invariant
            i <= n <= MAX_KEYS,
            n == num_keys(p),
            p == page.data@,
            forall|j: int| 0 <= j < i ==> in_page(#[trigger] info(p, j)),
        decreases n - i,
    {
        let ki = read_key_info(page, i);
        if ki.key_offset as usize + ki.key_len as usize > PAGE_SIZE || ki.value_offset as usize
            + ki.value_len as usize > PAGE_SIZE {
            assert(!in_page(info(p, i as int)));
            return false;
        }
        i += 1;
    }
    true
}

/// The tree does not go beyond the levels and nodes.
pub open spec fn within_size(t: Tree, depth: int, nodes: int) -> bool {
    t.depth() <= depth && t.node_count() <= nodes
}

/// A row of trees is as deep as each of them at least.
proof fn lemma_forest_depth(cs: Seq<Tree>, i: int)
    requires
        0 <= i < cs.len(),
    ensures
        cs[i].depth() <= forest_depth(cs),
    decreases cs.len(),
{
    if i < cs.len() - 1 {
        lemma_forest_depth(cs.drop_last(), i);
        assert(cs.drop_last()[i] == cs[i]);
    }
}

proof fn lemma_forest_depth_at_most(cs: Seq<Tree>, d: int)
    requires
        0 <= d,
        forall|i: int| 0 <= i < cs.len() ==> (#[trigger] cs[i]).depth() <= d,
    ensures
        forest_depth(cs) <= d,
    decreases cs.len(),
{
    if cs.len() > 0 {
        let ds = cs.drop_last();
        assert forall|i: int| 0 <= i < ds.len() implies (#[trigger] ds[i]).depth() <= d by {
            assert(ds[i] == cs[i]);
        }
        lemma_forest_depth_at_most(ds, d);
        assert(cs[cs.len() - 1].depth() <= d);
    }
}

/// The first children that were found.
spec fn found(pages: Pages, ids: Seq<PageId>, kids: Seq<Tree>, depth: int) -> bool {
    &&& kids.len() <= ids.len()
    &&& forall|j: int|
        0 <= j < kids.len() ==> rooted(pages, ids[j], #[trigger] kids[j]) && kids[j].depth()
            <= depth
}

/// Where one of the children is too deep or too large, the node is.
proof fn lemma_too_large(
    pages: Pages,
    id: PageId,
    t: Tree,
    ids: Seq<PageId>,
    kids: Seq<Tree>,
    depth: int,
    nodes: int,
)
    requires
        rooted(pages, id, t),
        t is Internal,
        t->children.len() == ids.len(),
        forall|j: int| 0 <= j < ids.len() ==> ids[j] == child_at(pages[id], j),
        found(pages, ids, kids, depth - 1),
        kids.len() < ids.len(),
        forall|u: Tree|
            rooted(pages, ids[kids.len() as int], u) ==> !(#[trigger] within_size(
                u,
                depth - 1,
                nodes - 1 - forest_nodes(kids),
            )),
    ensures
        !within_size(t, depth, nodes),
{
    let n = kids.len() as int;
    let cs = t->children;
    assert forall|j: int| 0 <= j < n implies kids[j] == #[trigger] cs[j] by {
        assert(child_at(pages[id], j) == cs[j].id());
        assert(rooted(pages, ids[j], kids[j]));
        lemma_held_unique(kids[j], cs[j], pages);
    }
    assert(cs.take(n) =~= kids);
    assert(child_at(pages[id], n) == cs[n].id());
    lemma_reach_child(t, n);
    assert(rooted(pages, ids[n], cs[n]));
    assert(!within_size(cs[n], depth - 1, nodes - 1 - forest_nodes(kids)));
    lemma_forest_around(cs, n);
    lemma_forest_depth(cs, n);
}

/// Looks for a tree from the page on that does not go beyond the levels and nodes, and says how
/// many nodes are left over.
fn walk_node(pager: &mut Pager, page_id: PageId, depth: u32, nodes: u32) -> (r: Result<
    (Option<u32>, Ghost<Tree>),
>)
    requires
        old(pager).wf(),
    ensures
        peeked(old(pager), final(pager)),
        r matches Ok(x) && match x.0 {
            Some(left) => {
                &&& rooted(old(pager).pages(), page_id, x.1@)
                &&& x.1@.depth() <= depth
                &&& x.1@.node_count() == nodes - left
            },
            None => forall|t: Tree|
                rooted(old(pager).pages(), page_id, t) ==> !(#[trigger] within_size(
                    t,
                    depth as int,
                    nodes as int,
                )),
        },
    decreases depth,
{
    let ghost pages = pager.pages();
    let limit: u64 = (usize::MAX / PAGE_SIZE) as u64;
    if depth == 0 || nodes == 0 || page_id >= limit {
        proof {
            assert forall|t: Tree| rooted(pages, page_id, t) implies !(#[trigger] within_size(
                t,
                depth as int,
                nodes as int,
            )) by {
                assert(t.owns(page_id));
            }
        }
        return Ok((None, Ghost(Tree::Leaf { id: page_id, entries: Seq::empty() })));
    }
    let page = pager.get_page(page_id)?;
    if !is_node(page) {
        return Ok((None, Ghost(Tree::Leaf { id: page_id, entries: Seq::empty() })));
    }
    let header = read_header(page);
    let ghost s = entries_of(pages[page_id]);
    if header.node_type == NodeType::Leaf {
        let ghost t = Tree::Leaf { id: page_id, entries: s };
        assert(rooted(pages, page_id, t)) by {
            assert(in_reach(t));
        }
        return Ok((Some(nodes - 1), Ghost(t)));
    }
    let child_ids = collect_children(page, header.num_keys);
    let ghost ids = child_ids@;
    let ghost mut kids: Seq<Tree> = Seq::empty();
    let mut left: u32 = nodes - 1;
    let mut i: usize = 0;
    while i < child_ids.len()
        invariant
            i <= child_ids@.len(),
            ids == child_ids@,
            pages == old(pager).pages(),
            peeked(old(pager), pager),
            depth > 0,
            nodes > 0,
            kids.len() == i,
            s == entries_of(pages[page_id]),
            ids.len() == s.len() + 1,
            node_kind(pages[page_id]) == NodeType::Internal,
            readable(pages[page_id]),
            forall|j: int| 0 <= j < ids.len() ==> ids[j] == child_at(pages[page_id], j),
            found(pages, ids, kids, depth - 1),
            left == nodes - 1 - forest_nodes(kids),
        decreases child_ids@.len() - i,
    {
        let (rest, Ghost(kid)) = walk_node(pager, child_ids[i], depth - 1, left)?;
        match rest {
            Some(rest) => {
                proof {
                    let more = kids.push(kid);
                    assert(more =~= kids + seq![kid]);
                    lemma_forest_add(kids, seq![kid]);
                    lemma_forest_one(kid);
                    assert forall|j: int| 0 <= j < more.len() implies rooted(
                        pages,
                        ids[j],
                        #[trigger] more[j],
                    ) && more[j].depth() <= depth - 1 by {
                        if j < kids.len() {
                            assert(more[j] == kids[j]);
                        }
                    }
                    kids = more;
                }
                left = rest;
            },
            None => {
                proof {
                    assert forall|t: Tree| rooted(pages, page_id, t) implies !(
                    #[trigger] within_size(t, depth as int, nodes as int)) by {
                        lemma_too_large(
                            pages,
                            page_id,
                            t,
                            ids,
                            kids,
                            depth as int,
                            nodes as int,
                        );
                    }
                }
                return Ok((None, Ghost(kid)));
            },
        }
        i += 1;
    }
    let ghost t = Tree::Internal { id: page_id, keys: s, children: kids };
    proof {
        assert forall|j: int| 0 <= j < kids.len() implies child_at(pages[page_id], j) == (
        #[trigger] kids[j]).id() && kids[j].held(pages) by {
            assert(rooted(pages, ids[j], kids[j]));
        }
        assert forall|x: PageId| #[trigger] t.owns(x) implies addressable(x) by {
            if x != page_id {
                let j = choose|j: int| 0 <= j < kids.len() && (#[trigger] kids[j]).owns(x);
                assert(in_reach(kids[j]));
            }
        }
        lemma_forest_depth_at_most(kids, depth - 1);
        assert(rooted(pages, page_id, t));
    }
    Ok((Some(left), Ghost(t)))
}

/// Whether the pages hold a tree, from the root page on, that can be walked.
pub fn is_walkable(pager: &mut Pager, root: PageId) -> (r: Result<bool>)
    requires
        old(pager).wf(),
    ensures
        peeked(old(pager), final(pager)),
        r matches Ok(b) && b == walkable(old(pager).pages(), root),
{
    let ghost pages = pager.pages();
    let (left, Ghost(t)) = walk_node(pager, root, MAX_LEVELS, u32::MAX)?;
    proof {
        if left is Some {
            lemma_tree_of(pages, root, t);
        } else if has_tree(pages, root) {
            let u = tree_of(pages, root);
            assert(rooted(pages, root, u));
            assert(!within_size(u, MAX_LEVELS as int, u32::MAX as int));
        }
    }
    Ok(left.is_some())
}

} // verus!
