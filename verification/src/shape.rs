//! What a database is apart from the bytes of its pages, and what its operations make of it.
use vstd::prelude::*;
use crate::bytes::zeros;
use crate::constants::{
    MetaData, NodeHeader, NodeType, PageId, HEADER_SIZE, INVALID_PAGE_ID, MAX_KEY_SIZE,
    MAX_VALUE_SIZE, META_PAGE_ID, META_SIZE, PAGE_SIZE, ROOT_PAGE_ID,
};
use crate::entries::{
    lemma_map_with_entry, lemma_map_without_key, lemma_total_insert, lemma_total_one, sorted,
    to_map, with_entry, without_key, Entry,
};
use crate::node::{compact, entries_of, num_keys};
use crate::pager::{chain, free_list, fresh_pages, meta_of, Pages};
use crate::space::{free_after, next_after, next_of, nth, upcoming};
use crate::store::{lemma_sound, lemma_sound_as, sound, sound_as, tree_of};
use crate::tree::{bare, lower, roomy, route, upper, Grown, Shrunk, Tree};
use crate::tree_laws::{
    among, fresh_for, lemma_entries_sorted, lemma_grow, lemma_grow_child, lemma_height,
    lemma_inserted, lemma_parted, lemma_shrink,
};

verus! {

/// The key and the value have sizes that can be stored.
pub open spec fn storable(k: Seq<u8>, v: Seq<u8>) -> bool {
    0 < k.len() <= MAX_KEY_SIZE && v.len() <= MAX_VALUE_SIZE
}

/// The tree of a database, its free pages in the order in which they are handed out, and the
/// number of the first page that was never used.
pub struct Shape {
    pub tree: Tree,
    pub free: Seq<PageId>,
    pub next: int,
}

/// The shape of the database that the pages hold, from the root page on.
pub open spec fn shape_of(pages: Pages, root: PageId) -> Shape {
    Shape { tree: tree_of(pages, root), free: free_list(pages), next: next_of(pages) }
}

impl Shape {
    /// The tree is a search tree, and no page is used twice or lies where memory cannot hold it.
    pub open spec fn ok(self) -> bool {
        &&& self.tree.wf(None, None, self.tree.height())
        &&& self.tree.distinct()
        &&& ROOT_PAGE_ID < self.next
        &&& self.next * PAGE_SIZE <= usize::MAX
        &&& self.free.no_duplicates()
        &&& forall|i: int| 0 <= i < self.free.len() ==> META_PAGE_ID < #[trigger] self.free[i]
            < self.next
        &&& forall|x: PageId| #[trigger] self.tree.owns(x) ==> META_PAGE_ID < x < self.next
        &&& forall|i: int| 0 <= i < self.free.len() ==> !self.tree.owns(#[trigger] self.free[i])
    }

    /// The pairs, in the order of their keys.
    pub open spec fn entries(self) -> Seq<Entry> {
        self.tree.entries()
    }

    /// The keys with their values.
    pub open spec fn map(self) -> Map<Seq<u8>, Seq<u8>> {
        to_map(self.entries())
    }

    /// The pages that binding a key may take, in the order in which they are handed out.
    pub open spec fn spare(self) -> Seq<PageId> {
        upcoming(self.free, self.next, self.tree.height() + 2)
    }

    /// How many pages one way down the tree to bind the key takes.
    pub open spec fn takes(self, k: Seq<u8>, v: Seq<u8>) -> nat {
        self.tree.pages_needed(k, v, self.spare())
    }

    /// Memory holds the pages with `n` more of them.
    pub open spec fn has_memory(self, n: nat) -> bool {
        next_after(self.free, self.next, n) * PAGE_SIZE <= usize::MAX
    }

    /// There is room to bind the key to the value: they have sizes that can be stored, and memory
    /// holds the pages that binding a key may take.
    pub open spec fn fits(self, k: Seq<u8>, v: Seq<u8>) -> bool {
        storable(k, v) && self.has_memory(2 * self.tree.height() + 5)
    }

    /// The database after one way down the tree: with the key bound to the value, or with the leaf
    /// in which it belongs parted.
    #[verifier::opaque]
    pub open spec fn once(self, k: Seq<u8>, v: Seq<u8>) -> Shape {
        Shape {
            tree: self.tree.inserted(k, v, self.spare()),
            free: free_after(self.free, self.takes(k, v)),
            next: next_after(self.free, self.next, self.takes(k, v)),
        }
    }

    /// The database with the key bound to the value.
    #[verifier::opaque]
    pub open spec fn with(self, k: Seq<u8>, v: Seq<u8>) -> Shape {
        if self.tree.parts(k, v) {
            self.once(k, v).once(k, v)
        } else {
            self.once(k, v)
        }
    }

    /// The database is not much larger than it was before a key was bound.
    pub open spec fn is_near(self, before: Shape) -> bool {
        self.tree.height() <= before.tree.height() + 2 && self.next <= before.next + 2
            * before.tree.height() + 5 && self.free.len() <= before.free.len()
    }

    /// The root is the page that it was, and the tree is as high. Or it is a new page above the old
    /// root, with one key or two, and the tree is higher by one.
    pub open spec fn has_root_from(self, before: Shape) -> bool {
        if self.tree.id() == before.tree.id() {
            self.tree.height() == before.tree.height()
        } else {
            &&& self.tree is Internal
            &&& 1 <= self.tree->keys.len() <= 2
            &&& self.tree->children.len() == self.tree->keys.len() + 1
            &&& self.tree->children[0].id() == before.tree.id()
            &&& self.tree.height() == before.tree.height() + 1
        }
    }

    /// The root has no room for what binding the key adds to it.
    pub open spec fn splits_root(self, k: Seq<u8>, v: Seq<u8>) -> bool {
        self.tree.grow(k, v, self.spare()) is Split
    }

    /// The key belongs in a leaf below the root that has one pair at most: nothing is taken out
    /// of such a leaf.
    pub open spec fn keeps(self, k: Seq<u8>) -> bool {
        self.tree is Internal && self.tree.leaf_for(k).len() <= 1
    }

    /// The database with the key taken out, where it is there and can be taken out.
    pub open spec fn without(self, k: Seq<u8>) -> Shape {
        match self.tree.shrink(k) {
            Shrunk::Deleted(u) => Shape { tree: u, ..self },
            _ => self,
        }
    }
}

/// The shape of sound pages is in order.
pub proof fn lemma_shape_ok(pages: Pages, root: PageId)
    requires
        sound(pages, root),
    ensures
        shape_of(pages, root).ok(),
{
    lemma_sound(pages, root);
}

/// The pairs are sorted by their keys.
pub proof fn lemma_sorted(s: Shape)
    requires
        s.ok(),
    ensures
        sorted(s.entries()),
{
    lemma_entries_sorted(s.tree, None, None, s.tree.height());
}

proof fn lemma_spare(s: Shape, n: nat)
    requires
        s.ok(),
        n <= s.spare().len(),
        next_after(s.free, s.next, n) * PAGE_SIZE <= usize::MAX,
    ensures
        fresh_for(s.spare(), n, s.tree),
        forall|i: int| 0 <= i < n ==> META_PAGE_ID < #[trigger] s.spare()[i] < next_after(
            s.free,
            s.next,
            n,
        ),
{
    let fresh = s.spare();
    assert forall|i: int, j: int| 0 <= i < j < n implies #[trigger] fresh[i]
        != #[trigger] fresh[j] by {
        assert(fresh[i] == nth(s.free, s.next, i));
        assert(fresh[j] == nth(s.free, s.next, j));
    }
    assert forall|i: int| 0 <= i < n implies !s.tree.owns(#[trigger] fresh[i]) && META_PAGE_ID
        < fresh[i] < next_after(s.free, s.next, n) by {
        assert(fresh[i] == nth(s.free, s.next, i));
        if i < s.free.len() {
            assert(!s.tree.owns(s.free[i]));
        }
    }
}

/// One way down the tree.
pub proof fn lemma_once(s: Shape, k: Seq<u8>, v: Seq<u8>)
    requires
        s.ok(),
        storable(k, v),
        s.has_memory(s.tree.height() + 2),
    ensures
        s.once(k, v).ok(),
        s.once(k, v).entries() == s.tree.entries_with(k, v),
        s.tree.parts(k, v) ==> !s.once(k, v).tree.parts(k, v),
        s.once(k, v).tree.height() <= s.tree.height() + 1,
        s.takes(k, v) <= s.tree.height() + 2,
        s.once(k, v).next <= s.next + s.tree.height() + 2,
        s.once(k, v).free.len() <= s.free.len(),
        forall|n: nat| #[trigger]
            s.once(k, v).has_memory(n) == s.has_memory(s.takes(k, v) + n),
{
    reveal(Shape::once);
    let t = s.tree;
    let h = t.height();
    let fresh = s.spare();
    let n = s.takes(k, v);
    let w = s.once(k, v);
    lemma_grow(t, None, None, h, k, v, fresh);
    lemma_spare(s, n);
    lemma_inserted(t, h, k, v, fresh);
    if t.parts(k, v) {
        lemma_parted(t, h, k, v, fresh);
    }
    let h1 = if t.grow(k, v, fresh) is Split {
        h + 1
    } else {
        h
    };
    lemma_height(w.tree, None, None, h1);
    assert forall|x: PageId| #[trigger] w.tree.owns(x) implies META_PAGE_ID < x < w.next by {
        if !t.owns(x) {
            let i = choose|i: int| 0 <= i < n && #[trigger] fresh[i] == x;
            assert(META_PAGE_ID < fresh[i] < w.next);
        }
    }
    assert forall|i: int| 0 <= i < w.free.len() implies !w.tree.owns(#[trigger] w.free[i])
        && META_PAGE_ID < w.free[i] < w.next by {
        let x = w.free[i];
        assert(x == s.free[n + i]);
        assert(!t.owns(s.free[n + i]));
        if among(fresh, n, x) {
            let j = choose|j: int| 0 <= j < n && #[trigger] fresh[j] == x;
            assert(fresh[j] == nth(s.free, s.next, j));
            assert(s.free[j] != s.free[n + i]);
        }
    }
}

/// One way down the tree makes a new root if the old one has no room, and only then.
pub proof fn lemma_root_once(s: Shape, k: Seq<u8>, v: Seq<u8>)
    requires
        s.ok(),
        storable(k, v),
        s.has_memory(s.tree.height() + 2),
    ensures
        s.once(k, v).has_root_from(s),
        s.splits_root(k, v) <==> s.once(k, v).tree.id() != s.tree.id(),
        s.splits_root(k, v) ==> s.once(k, v).tree->keys.len() == 1,
{
    reveal(Shape::once);
    let t = s.tree;
    let h = t.height();
    let fresh = s.spare();
    let n = s.takes(k, v);
    let w = s.once(k, v);
    lemma_grow(t, None, None, h, k, v, fresh);
    lemma_spare(s, n);
    lemma_inserted(t, h, k, v, fresh);
    if s.splits_root(k, v) {
        lemma_height(w.tree, None, None, h + 1);
        assert(!t.owns(fresh[h as int + 1]));
        assert(t.owns(t.id()));
    } else {
        lemma_height(w.tree, None, None, h);
    }
}

/// A root with one key has room for one more.
proof fn lemma_young_root(s: Shape, k: Seq<u8>, v: Seq<u8>)
    requires
        s.ok(),
        storable(k, v),
        s.tree is Internal,
        s.tree->keys.len() == 1,
    ensures
        !s.splits_root(k, v),
        ({
            let u = s.tree.inserted(k, v, s.spare());
            &&& u is Internal
            &&& u.id() == s.tree.id()
            &&& 1 <= u->keys.len() <= 2
            &&& u->children.len() == u->keys.len() + 1
            &&& u->children[0].id() == s.tree->children[0].id()
        }),
{
    let t = s.tree;
    let fresh = s.spare();
    let c = route(t->keys, k);
    let child = t->children[c];
    lemma_grow_child(t, None, None, t.height(), k, v, fresh);
    lemma_grow(
        child,
        lower(t->keys, None, c),
        upper(t->keys, None, c),
        (t.height() - 1) as nat,
        k,
        v,
        fresh,
    );
    if let Grown::Split(l, m, r) = child.grow(k, v, fresh) {
        let keys = t->keys.insert(c, bare(m));
        lemma_total_insert(t->keys, c, bare(m));
        lemma_total_one(t->keys[0]);
        assert(t->keys =~= seq![t->keys[0]]);
        assert(storable(t->keys[0].0, t->keys[0].1));
        assert(roomy(keys));
    }
}

/// Binding a key keeps the root, or puts a new one above it.
pub proof fn law_root(s: Shape, k: Seq<u8>, v: Seq<u8>)
    requires
        s.ok(),
        s.fits(k, v),
    ensures
        s.with(k, v).has_root_from(s),
        !s.tree.parts(k, v) ==> {
            &&& s.splits_root(k, v) <==> s.with(k, v).tree.id() != s.tree.id()
            &&& s.splits_root(k, v) ==> s.with(k, v).tree->keys.len() == 1
        },
{
    reveal(Shape::with);
    lemma_once(s, k, v);
    lemma_root_once(s, k, v);
    if s.tree.parts(k, v) {
        let s1 = s.once(k, v);
        assert(s1.has_memory(s1.tree.height() + 2));
        lemma_root_once(s1, k, v);
        if s.splits_root(k, v) {
            lemma_young_root(s1, k, v);
            reveal(Shape::once);
        }
    }
}

/// Binding a key changes what the key is bound to and nothing else.
pub proof fn lemma_with(s: Shape, k: Seq<u8>, v: Seq<u8>)
    requires
        s.ok(),
        s.fits(k, v),
    ensures
        s.with(k, v).ok(),
        s.with(k, v).entries() == with_entry(s.entries(), k, v),
        s.with(k, v).map() == s.map().insert(k, v),
        s.with(k, v).is_near(s),
{
    reveal(Shape::with);
    lemma_once(s, k, v);
    if s.tree.parts(k, v) {
        assert(s.once(k, v).has_memory(s.once(k, v).tree.height() + 2));
        lemma_once(s.once(k, v), k, v);
    }
    lemma_sorted(s);
    lemma_map_with_entry(s.entries(), k, v);
}

/// Taking a key out changes nothing else. A key whose leaf below the root would be left empty
/// stays.
pub proof fn lemma_without(s: Shape, k: Seq<u8>)
    requires
        s.ok(),
    ensures
        s.without(k).ok(),
        s.without(k).entries() == (if s.keeps(k) {
            s.entries()
        } else {
            without_key(s.entries(), k)
        }),
        s.without(k).map() == (if s.keeps(k) {
            s.map()
        } else {
            s.map().remove(k)
        }),
        s.without(k).tree.height() == s.tree.height(),
{
    let t = s.tree;
    lemma_shrink(t, None, None, t.height(), k);
    lemma_sorted(s);
    lemma_map_without_key(s.entries(), k);
    if let Shrunk::Deleted(u) = t.shrink(k) {
        lemma_height(u, None, None, t.height());
        assert forall|i: int| 0 <= i < s.free.len() implies !u.owns(#[trigger] s.free[i]) by {
            assert(!t.owns(s.free[i]));
        }
    }
}

/// A database that holds nothing: an empty root behind the metadata.
pub open spec fn empty_shape() -> Shape {
    Shape {
        tree: Tree::Leaf { id: ROOT_PAGE_ID, entries: Seq::empty() },
        free: Seq::empty(),
        next: 2,
    }
}

/// A new file holds an empty database.
pub proof fn lemma_fresh_sound()
    ensures
        sound(fresh_pages(), ROOT_PAGE_ID),
        shape_of(fresh_pages(), ROOT_PAGE_ID) == empty_shape(),
        meta_of(fresh_pages()) == MetaData::fresh(),
        empty_shape().entries() == Seq::<Entry>::empty(),
{
    let pages = fresh_pages();
    let m = MetaData::fresh();
    let z = zeros(PAGE_SIZE as nat);
    m.lemma_encoded_len();
    let mp = pages[META_PAGE_ID];
    assert(mp.subrange(0, META_SIZE as int) =~= m.encoded());
    m.lemma_decoded(mp);
    let h = NodeHeader { node_type: NodeType::Leaf, num_keys: 0, _reserved: 0 };
    let p = pages[ROOT_PAGE_ID];
    h.lemma_encoded_len();
    assert(p.subrange(0, HEADER_SIZE as int) =~= h.encoded());
    h.lemma_decoded(p);
    assert(num_keys(p) == 0);
    assert(entries_of(p) =~= Seq::<Entry>::empty());
    let t = empty_shape().tree;
    let free = Seq::<PageId>::empty();
    assert(compact(p));
    assert(t.held(pages) && t.packed(pages));
    assert(chain(pages, INVALID_PAGE_ID, free));
    assert(sound_as(pages, ROOT_PAGE_ID, t, 0, free));
    lemma_sound_as(pages, ROOT_PAGE_ID, t, 0, free);
}

} // verus!
