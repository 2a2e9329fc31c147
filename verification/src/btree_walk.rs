//! Walks over the whole B-tree: listing, counting and checking it.
use vstd::prelude::*;
use vstd::slice::slice_subrange;
use crate::btree::{lemma_read_child, lemma_read_in_step, only_read, stays_in_step, BTree};
use crate::bytes::{key_lt, key_order, lemma_key_transitive, opt_view, KeyOrder};
use crate::constants::{NodeType, PageId};
use crate::entries::{above, below, pairs, sorted, within, Entry};
use crate::error::{KvdbError, Result};
use crate::laws::law_sound_is_healthy;
use crate::node::{
    child_at, collect_children, entries_of, entry_at, get_key_from_page, get_value_from_page, info,
    num_keys, read_header, read_key_info, readable,
};
use crate::pager::{Handed, Page, Pager};
use crate::space::in_step;
use crate::store::{has_tree, lemma_reach_child, rooted, sound, tree_of};
use crate::tree::{
    forest_depth, forest_entries, forest_keys, forest_leaves, forest_nodes, lemma_forest_around,
    lower, upper, Tree,
};

verus! {

/// The function was called on the pair.
pub open spec fn called<F: FnMut(&[u8], &[u8])>(f: F, e: Entry) -> bool {
    exists|a: &[u8], b: &[u8]| a@ == e.0 && b@ == e.1 && #[trigger] call_ensures(f, (a, b), ())
}

/// The function was called on each of the pairs.
pub open spec fn called_on<F: FnMut(&[u8], &[u8])>(f: F, s: Seq<Entry>) -> bool {
    forall|i: int| 0 <= i < s.len() ==> called(f, #[trigger] s[i])
}

/// The function can be called on the pair, by one who was lent it.
pub open spec fn callable<F: FnMut(&[u8], &[u8])>(f: F, e: Entry) -> bool {
    forall|g: &mut &mut F, a: &[u8], b: &[u8]|
        **g == f && a@ == e.0 && b@ == e.1 ==> #[trigger] call_requires(g, (a, b))
}

/// The function can be called on each of the pairs.
pub open spec fn callable_on<F: FnMut(&[u8], &[u8])>(f: F, s: Seq<Entry>) -> bool {
    forall|i: int| 0 <= i < s.len() ==> callable(f, #[trigger] s[i])
}

/// What takes the pairs of a tree, one after the other.
trait Visitor: Sized {
    /// What decides which pairs can be taken.
    type Taste;

    /// It stays the same.
    spec fn taste(&self) -> Self::Taste;

    /// The pair can be taken.
    spec fn takes(taste: Self::Taste, e: Entry) -> bool;

    /// The pairs that were taken, in order.
    spec fn seen(&self) -> Seq<Entry>;

    /// What was to be done with them has been done.
    spec fn has_done(&self) -> bool;

    /// Takes one more pair, which is recorded.
    fn visit(&mut self, key: &[u8], value: &[u8], handed: &mut Handed)
        requires
            old(self).has_done(),
            Self::takes(old(self).taste(), (key@, value@)),
        ensures
            final(self).has_done(),
            final(self).taste() == old(self).taste(),
            final(self).seen() == old(self).seen().push((key@, value@)),
            final(handed).pairs() == old(handed).pairs().push((key@, value@)),
    ;
}

/// Each of the pairs can be taken.
spec fn takes_all<V: Visitor>(v: &V, s: Seq<Entry>) -> bool {
    forall|i: int| 0 <= i < s.len() ==> V::takes(v.taste(), #[trigger] s[i])
}

/// Hands the pairs on to a function.
struct Caller<'a, F> {
    f: &'a mut F,
    seen: Ghost<Seq<Entry>>,
}

impl<'a, F: FnMut(&[u8], &[u8])> Visitor for Caller<'a, F> {
    type Taste = F;

    spec fn taste(&self) -> F {
        *self.f
    }

    spec fn takes(taste: F, e: Entry) -> bool {
        callable(taste, e)
    }

    spec fn seen(&self) -> Seq<Entry> {
        self.seen@
    }

    spec fn has_done(&self) -> bool {
        called_on(self.taste(), self.seen())
    }

    fn visit(&mut self, key: &[u8], value: &[u8], handed: &mut Handed) {
        let ghost s = self.seen@;
        let ghost e = (key@, value@);
        handed.hand(&mut self.f, key, value);
        proof {
            self.seen@ = s.push(e);
            assert(called(*self.f, e)) by {
                assert(call_ensures(*self.f, (key, value), ()));
            }
            assert forall|i: int| 0 <= i < s.push(e).len() implies called(
                *self.f,
                #[trigger] s.push(e)[i],
            ) by {
                if i < s.len() {
                    assert(s.push(e)[i] == s[i]);
                }
            }
        }
    }
}

/// What takes all pairs of a tree takes those of a child.
proof fn lemma_takes_child<V: Visitor>(v: &V, t: Tree, c: int)
    requires
        t is Internal,
        0 <= c < t->children.len(),
        takes_all(v, t.entries()),
    ensures
        takes_all(v, t->children[c].entries()),
{
    let cs = t->children;
    lemma_forest_around(cs, c);
    let e = cs[c].entries();
    assert forall|i: int| 0 <= i < e.len() implies V::takes(v.taste(), #[trigger] e[i]) by {
        let j = forest_entries(cs.take(c)).len() + i;
        assert(t.entries()[j] == e[i]);
    }
}

/// One more tree of a row.
proof fn lemma_forest_next(cs: Seq<Tree>, i: int)
    requires
        0 <= i < cs.len(),
    ensures
        forest_entries(cs.take(i + 1)) == forest_entries(cs.take(i)) + cs[i].entries(),
        forest_nodes(cs.take(i + 1)) == forest_nodes(cs.take(i)) + cs[i].node_count(),
        forest_leaves(cs.take(i + 1)) == forest_leaves(cs.take(i)) + cs[i].leaf_count(),
        forest_keys(cs.take(i + 1)) == forest_keys(cs.take(i)) + cs[i].key_count(),
        forest_depth(cs.take(i + 1)) == (if forest_depth(cs.take(i)) >= cs[i].depth() {
            forest_depth(cs.take(i))
        } else {
            cs[i].depth()
        }),
{
    assert(cs.take(i + 1).drop_last() =~= cs.take(i));
    assert(cs.take(i + 1).last() == cs[i]);
}

/// The first trees of a row count no more than all of them.
proof fn lemma_forest_within(cs: Seq<Tree>, i: int)
    requires
        0 <= i < cs.len(),
    ensures
        forest_entries(cs.take(i)).len() + cs[i].entries().len() <= forest_entries(cs).len(),
        forest_nodes(cs.take(i)) + cs[i].node_count() <= forest_nodes(cs),
        forest_leaves(cs.take(i)) + cs[i].leaf_count() <= forest_leaves(cs),
        forest_keys(cs.take(i)) + cs[i].key_count() <= forest_keys(cs),
        forest_depth(cs.take(i)) <= forest_depth(cs),
        cs[i].depth() <= forest_depth(cs),
{
    lemma_forest_around(cs, i);
    lemma_depth_grows(cs, i, cs.len() as int);
    lemma_depth_grows(cs, i + 1, cs.len() as int);
    lemma_forest_next(cs, i);
    assert(cs.take(cs.len() as int) =~= cs);
}

proof fn lemma_depth_grows(cs: Seq<Tree>, i: int, j: int)
    requires
        0 <= i <= j <= cs.len(),
    ensures
        forest_depth(cs.take(i)) <= forest_depth(cs.take(j)),
    decreases j - i,
{
    if i < j {
        lemma_depth_grows(cs, i, j - 1);
        lemma_forest_next(cs, j - 1);
    }
}

/// No tree has more leaves than nodes.
pub proof fn lemma_leaves(t: Tree)
    ensures
        t.leaf_count() <= t.node_count(),
    decreases t,
{
    if let Tree::Internal { id, keys, children } = t {
        assert forall|i: int| 0 <= i < children.len() implies (#[trigger] children[i]).leaf_count()
            <= children[i].node_count() by {
            lemma_leaves(children[i]);
        }
        lemma_forest_leaves(children);
    }
}

proof fn lemma_forest_leaves(cs: Seq<Tree>)
    requires
        forall|i: int| 0 <= i < cs.len() ==> (#[trigger] cs[i]).leaf_count() <= cs[i].node_count(),
    ensures
        forest_leaves(cs) <= forest_nodes(cs),
    decreases cs.len(),
{
    if cs.len() > 0 {
        lemma_forest_leaves(cs.drop_last());
    }
}

/// The counts of the tree fit in the counters.
pub open spec fn countable(t: Tree) -> bool {
    t.depth() <= u32::MAX && t.node_count() <= u64::MAX && t.key_count() <= u64::MAX
        && t.entries().len() <= u64::MAX
}

/// A key that is greater than the one before it, and within the bounds.
proof fn lemma_next_in_order(s: Seq<Entry>, i: int, lb: Option<Seq<u8>>, ub: Option<Seq<u8>>)
    requires
        0 <= i < s.len(),
        sorted(s.take(i)),
        within(s.take(i), lb, ub),
        i > 0 ==> key_lt(s[i - 1].0, s[i].0),
        above(s[i].0, lb),
        below(s[i].0, ub),
    ensures
        sorted(s.take(i + 1)),
        within(s.take(i + 1), lb, ub),
{
    let a = s.take(i);
    let b = s.take(i + 1);
    assert forall|j: int, k: int| 0 <= j < k < b.len() implies key_lt(
        #[trigger] b[j].0,
        #[trigger] b[k].0,
    ) by {
        if k < i {
            assert(a[j] == b[j] && a[k] == b[k]);
        } else if j < i - 1 {
            assert(a[j] == s[j] && a[i - 1] == s[i - 1]);
            lemma_key_transitive(s[j].0, s[i - 1].0, s[i].0);
        }
    }
    assert forall|j: int| 0 <= j < b.len() implies above(#[trigger] b[j].0, lb) && below(
        b[j].0,
        ub,
    ) by {
        if j < i {
            assert(a[j] == b[j]);
        }
    }
}

/// The keys of a node page, if they rise strictly and lie within the bounds.
pub fn checked_keys(
    page: &Page,
    n: u16,
    lower_bound: Option<&[u8]>,
    upper_bound: Option<&[u8]>,
) -> (r: Option<Vec<Vec<u8>>>)
    requires
        readable(page.data@),
        n == num_keys(page.data@),
    ensures
        r is Some <==> sorted(entries_of(page.data@)) && within(
            entries_of(page.data@),
            opt_view(lower_bound),
            opt_view(upper_bound),
        ),
        r matches Some(v) ==> v@.len() == n && forall|j: int|
            0 <= j < n ==> #[trigger] v@[j]@ == entries_of(page.data@)[j].0,
{
    let ghost s = entries_of(page.data@);
    let ghost lb = opt_view(lower_bound);
    let ghost ub = opt_view(upper_bound);
    let mut keys: Vec<Vec<u8>> = Vec::new();
    let mut i: u16 = 0;
    while i < n
        invariant
            i <= n,
            readable(page.data@),
            n == num_keys(page.data@),
            s == entries_of(page.data@),
            lb == opt_view(lower_bound),
            ub == opt_view(upper_bound),
            keys@.len() == i,
            forall|j: int| 0 <= j < i ==> #[trigger] keys@[j]@ == s[j].0,
            sorted(s.take(i as int)),
            within(s.take(i as int), lb, ub),
        decreases n - i,
    {
        let key = get_key_from_page(page, i);
        assert(key@ == s[i as int].0);
        if i > 0 {
            assert(keys@[i - 1]@ == s[i - 1].0);
            match key_order(key.as_slice(), keys[i as usize - 1].as_slice()) {
                KeyOrder::Greater => {},
                _ => {
                    return None;
                },
            }
        }
        if let Some(b) = lower_bound {
            match key_order(key.as_slice(), b) {
                KeyOrder::Less => {
                    assert(!above(s[i as int].0, lb));
                    return None;
                },
                _ => {},
            }
        }
        if let Some(b) = upper_bound {
            match key_order(key.as_slice(), b) {
                KeyOrder::Less => {},
                _ => {
                    assert(!below(s[i as int].0, ub));
                    return None;
                },
            }
        }
        proof {
            lemma_next_in_order(s, i as int, lb, ub);
        }
        keys.push(key);
        i += 1;
    }
    assert(s.take(i as int) =~= s);
    Some(keys)
}

impl BTree {
    /// Iterator that traverses all leaf entries in sorted order.
    pub fn iter_entries(&self, pager: &mut Pager) -> (r: Result<Vec<(Vec<u8>, Vec<u8>)>>)
        requires
            old(pager).wf(),
            sound(old(pager).pages(), self.root()) || has_tree(old(pager).pages(), self.root()),
        ensures
            only_read(old(pager), final(pager), tree_of(old(pager).pages(), self.root())),
            stays_in_step(old(pager), final(pager), self.root()),
            r matches Ok(v) && pairs(v@) == tree_of(old(pager).pages(), self.root()).entries(),
    {
        let mut result: Vec<(Vec<u8>, Vec<u8>)> = Vec::new();
        let ghost t = tree_of(pager.pages(), self.root());
        let ghost p0 = *pager;
        proof {
            if sound(pager.pages(), self.root()) {
                law_sound_is_healthy(pager.pages(), self.root());
            }
        }
        self.collect_entries(pager, self.root_page_id(), &mut result, Ghost(t))?;
        assert(pairs(result@) =~= t.entries());
        proof {
            if in_step(&p0) {
                lemma_read_in_step(&p0, pager, self.root());
            }
        }
        Ok(result)
    }

    fn collect_entries(
        &self,
        pager: &mut Pager,
        page_id: PageId,
        result: &mut Vec<(Vec<u8>, Vec<u8>)>,
        Ghost(t): Ghost<Tree>,
    ) -> (r: Result<()>)
        requires
            old(pager).wf(),
            rooted(old(pager).pages(), page_id, t),
        ensures
            r is Ok,
            only_read(old(pager), final(pager), t),
            pairs(final(result)@) == pairs(old(result)@) + t.entries(),
        decreases t,
    {
        let ghost p0 = pager.pages();
        let ghost r0 = pairs(result@);
        assert(t.owns(page_id));
        let page = pager.get_page(page_id)?;
        let header = read_header(page);
        match header.node_type {
            NodeType::Leaf => {
                let mut i: u16 = 0;
                assert(pairs(result@) =~= r0 + t.entries().take(0));
                while i < header.num_keys
                    invariant
                        i <= header.num_keys,
                        page.data@ == p0[page_id],
                        t is Leaf,
                        t.id() == page_id,
                        t.held(p0),
                        header.num_keys == num_keys(p0[page_id]),
                        pairs(result@) == r0 + t.entries().take(i as int),
                    decreases header.num_keys - i,
                {
                    let key = get_key_from_page(page, i);
                    let value = get_value_from_page(page, i);
                    let ghost r1 = pairs(result@);
                    result.push((key, value));
                    assert(pairs(result@) =~= r1.push(t.entries()[i as int]));
                    i += 1;
                    assert(pairs(result@) =~= r0 + t.entries().take(i as int));
                }
                assert(t.entries().take(i as int) =~= t.entries());
            },
            NodeType::Internal => {
                let child_ids = collect_children(page, header.num_keys);
                let ghost cs = t->children;
                let n: usize = child_ids.len();
                let mut i: usize = 0;
                assert(cs.take(0) =~= Seq::<Tree>::empty());
                assert(pairs(result@) =~= r0 + forest_entries(cs.take(0)));
                while i < n
                    invariant
                        i <= n,
                        n == child_ids@.len(),
                        t is Internal,
                        cs == t->children,
                        n == cs.len(),
                        rooted(p0, page_id, t),
                        p0 == old(pager).pages(),
                        forall|j: int| 0 <= j < n ==> child_ids@[j] == (#[trigger] cs[j]).id(),
                        only_read(old(pager), pager, t),
                        pairs(result@) == r0 + forest_entries(cs.take(i as int)),
                    decreases n - i,
                {
                    proof {
                        lemma_reach_child(t, i as int);
                        lemma_forest_next(cs, i as int);
                        assert(child_at(p0[page_id], i as int) == cs[i as int].id());
                    }
                    let ghost pg = *pager;
                    self.collect_entries(pager, child_ids[i], result, Ghost(cs[i as int]))?;
                    proof {
                        lemma_read_child(old(pager), &pg, pager, t, i as int);
                    }
                    i += 1;
                    assert(pairs(result@) =~= r0 + forest_entries(cs.take(i as int)));
                }
                assert(cs.take(i as int) =~= cs);
            },
        }
        Ok(())
    }

    /// Zero-copy scan: calls the closure for each entry without allocating.
    /// Returns total entry count.
    pub fn for_each_entry<F>(&self, pager: &mut Pager, f: &mut F) -> (r: Result<usize>) where
        F: FnMut(&[u8], &[u8]),

        requires
            old(pager).wf(),
            sound(old(pager).pages(), self.root()) || has_tree(old(pager).pages(), self.root())
                && tree_of(old(pager).pages(), self.root()).entries().len() <= usize::MAX,
            callable_on(*old(f), tree_of(old(pager).pages(), self.root()).entries()),
        ensures
            only_read(old(pager), final(pager), tree_of(old(pager).pages(), self.root())),
            stays_in_step(old(pager), final(pager), self.root()),
            r matches Ok(n) && n == tree_of(old(pager).pages(), self.root()).entries().len(),
            called_on(*old(f), tree_of(old(pager).pages(), self.root()).entries()),
            final(pager).handed.pairs() == old(pager).handed.pairs() + tree_of(
                old(pager).pages(),
                self.root(),
            ).entries(),
    {
        let ghost f0 = *f;
        let mut v = Caller { f, seen: Ghost(Seq::empty()) };
        let mut count: usize = 0;
        let ghost t = tree_of(pager.pages(), self.root());
        let ghost p0 = *pager;
        proof {
            if sound(pager.pages(), self.root()) {
                law_sound_is_healthy(pager.pages(), self.root());
            }
        }
        self.for_each_in_node(pager, self.root_page_id(), &mut v, &mut count, Ghost(t))?;
        proof {
            if in_step(&p0) {
                lemma_read_in_step(&p0, pager, self.root());
            }
            assert(v.seen() =~= t.entries());
        }
        Ok(count)
    }

    /// Hands the pairs of the tree to the visitor, each once, in their order.
    fn for_each_in_node<V: Visitor>(
        &self,
        pager: &mut Pager,
        page_id: PageId,
        v: &mut V,
        count: &mut usize,
        Ghost(t): Ghost<Tree>,
    ) -> (r: Result<()>)
        requires
            old(pager).wf(),
            rooted(old(pager).pages(), page_id, t),
            *old(count) + t.entries().len() <= usize::MAX,
            old(v).has_done(),
            takes_all(old(v), t.entries()),
        ensures
            r is Ok,
            only_read(old(pager), final(pager), t),
            *final(count) == *old(count) + t.entries().len(),
            final(v).seen() == old(v).seen() + t.entries(),
            final(pager).handed.pairs() == old(pager).handed.pairs() + t.entries(),
            final(v).has_done(),
            final(v).taste() == old(v).taste(),
        decreases t,
    {
        let ghost p0 = pager.pages();
        let ghost c0 = *count as int;
        let ghost v0 = *v;
        assert(t.owns(page_id));
        let ghost h0 = pager.handed.pairs();
        let (page, handed) = pager.page_to_hand(page_id)?;
        let ghost h1 = *final(handed);
        let header = read_header(page);
        match header.node_type {
            NodeType::Leaf => {
                let mut i: u16 = 0;
                assert(handed.pairs() =~= h0 + t.entries().take(0));
                assert(v.seen() =~= v0.seen() + t.entries().take(0));
                while i < header.num_keys
                    invariant
                        i <= header.num_keys,
                        page.data@ == p0[page_id],
                        t is Leaf,
                        t.id() == page_id,
                        t.held(p0),
                        header.num_keys == num_keys(p0[page_id]),
                        c0 + t.entries().len() <= usize::MAX,
                        *count == c0 + i,
                        takes_all(v, t.entries()),
                        v.has_done(),
                        v.taste() == v0.taste(),
                        v.seen() == v0.seen() + t.entries().take(i as int),
                        handed.pairs() == h0 + t.entries().take(i as int),
                        *final(handed) == h1,
                    decreases header.num_keys - i,
                {
                    let ki = read_key_info(page, i);
                    assert(crate::node::in_page(info(p0[page_id], i as int)));
                    let key = slice_subrange(
                        page.bytes(),
                        ki.key_offset as usize,
                        ki.key_offset as usize + ki.key_len as usize,
                    );
                    let value = slice_subrange(
                        page.bytes(),
                        ki.value_offset as usize,
                        ki.value_offset as usize + ki.value_len as usize,
                    );
                    proof {
                        let e = t.entries()[i as int];
                        assert(e == entry_at(p0[page_id], i as int));
                        assert(e == (key@, value@));
                        assert(t.entries().take(i + 1) =~= t.entries().take(i as int).push(e));
                    }
                    v.visit(key, value, handed);
                    *count += 1;
                    i += 1;
                    assert(v.seen() =~= v0.seen() + t.entries().take(i as int));
                    assert(handed.pairs() =~= h0 + t.entries().take(i as int));
                }
                assert(t.entries().take(i as int) =~= t.entries());
            },
            NodeType::Internal => {
                let child_ids = collect_children(page, header.num_keys);
                let ghost cs = t->children;
                let n: usize = child_ids.len();
                let mut i: usize = 0;
                assert(cs.take(0) =~= Seq::<Tree>::empty());
                assert(v.seen() =~= v0.seen() + forest_entries(cs.take(0)));
                assert(pager.handed.pairs() =~= h0 + forest_entries(cs.take(0)));
                while i < n
                    invariant
                        i <= n,
                        n == child_ids@.len(),
                        t is Internal,
                        cs == t->children,
                        n == cs.len(),
                        rooted(p0, page_id, t),
                        p0 == old(pager).pages(),
                        forall|j: int| 0 <= j < n ==> child_ids@[j] == (#[trigger] cs[j]).id(),
                        only_read(old(pager), pager, t),
                        c0 + t.entries().len() <= usize::MAX,
                        *count == c0 + forest_entries(cs.take(i as int)).len(),
                        takes_all(v, t.entries()),
                        v.has_done(),
                        v.taste() == v0.taste(),
                        v.seen() == v0.seen() + forest_entries(cs.take(i as int)),
                        pager.handed.pairs() == h0 + forest_entries(cs.take(i as int)),
                    decreases n - i,
                {
                    proof {
                        lemma_reach_child(t, i as int);
                        lemma_forest_next(cs, i as int);
                        lemma_forest_within(cs, i as int);
                        assert(child_at(p0[page_id], i as int) == cs[i as int].id());
                        lemma_takes_child(v, t, i as int);
                    }
                    let ghost pg = *pager;
                    self.for_each_in_node(pager, child_ids[i], v, count, Ghost(cs[i as int]))?;
                    proof {
                        lemma_read_child(old(pager), &pg, pager, t, i as int);
                    }
                    i += 1;
                    assert(v.seen() =~= v0.seen() + forest_entries(cs.take(i as int)));
                    assert(pager.handed.pairs() =~= h0 + forest_entries(cs.take(i as int)));
                }
                assert(cs.take(i as int) =~= cs);
            },
        }
        Ok(())
    }

    /// Count the tree height, node counts, etc.
    pub fn inspect(&self, pager: &mut Pager) -> (r: Result<(u32, u64, u64, u64, u64)>)
        requires
            old(pager).wf(),
            sound(old(pager).pages(), self.root()) || has_tree(old(pager).pages(), self.root())
                && countable(tree_of(old(pager).pages(), self.root())),
        ensures
            only_read(old(pager), final(pager), tree_of(old(pager).pages(), self.root())),
            stays_in_step(old(pager), final(pager), self.root()),
            ({
                let t = tree_of(old(pager).pages(), self.root());
                r matches Ok(c) && c.0 == t.depth() && c.1 == t.node_count() && c.2
                    == t.leaf_count() && c.3 == t.node_count() - t.leaf_count() && c.4
                    == t.entries().len()
            }),
    {
        let mut height: u32 = 0;
        let mut node_count: u64 = 0;
        let mut leaf_count: u64 = 0;
        let mut internal_count: u64 = 0;
        let mut entry_count: u64 = 0;
        let ghost t = tree_of(pager.pages(), self.root());
        let ghost p0 = *pager;
        proof {
            if sound(pager.pages(), self.root()) {
                law_sound_is_healthy(pager.pages(), self.root());
            }
        }
        self.inspect_node(
            pager,
            self.root_page_id(),
            1,
            &mut height,
            &mut node_count,
            &mut leaf_count,
            &mut internal_count,
            &mut entry_count,
            Ghost(t),
        )?;
        proof {
            if in_step(&p0) {
                lemma_read_in_step(&p0, pager, self.root());
            }
        }
        Ok((height, node_count, leaf_count, internal_count, entry_count))
    }

    fn inspect_node(
        &self,
        pager: &mut Pager,
        page_id: PageId,
        depth: u32,
        height: &mut u32,
        node_count: &mut u64,
        leaf_count: &mut u64,
        internal_count: &mut u64,
        entry_count: &mut u64,
        Ghost(t): Ghost<Tree>,
    ) -> (r: Result<()>)
        requires
            old(pager).wf(),
            rooted(old(pager).pages(), page_id, t),
            depth + t.depth() <= u32::MAX + 1,
            *old(node_count) + t.node_count() <= u64::MAX,
            *old(leaf_count) + *old(internal_count) == *old(node_count),
            *old(entry_count) + t.entries().len() <= u64::MAX,
        ensures
            r is Ok,
            only_read(old(pager), final(pager), t),
            *final(height) == (if *old(height) >= depth + t.depth() - 1 {
                *old(height) as int
            } else {
                depth + t.depth() - 1
            }),
            *final(node_count) == *old(node_count) + t.node_count(),
            *final(leaf_count) == *old(leaf_count) + t.leaf_count(),
            *final(internal_count) == *old(internal_count) + t.node_count() - t.leaf_count(),
            *final(entry_count) == *old(entry_count) + t.entries().len(),
        decreases t,
    {
        let ghost p0 = pager.pages();
        let ghost h0 = *height;
        let ghost n0 = *node_count;
        let ghost l0 = *leaf_count;
        let ghost i0 = *internal_count;
        let ghost e0 = *entry_count;
        assert(t.owns(page_id));
        proof {
            lemma_leaves(t);
        }
        let page = pager.get_page(page_id)?;
        let header = read_header(page);
        *node_count += 1;
        match header.node_type {
            NodeType::Leaf => {
                *leaf_count += 1;
                *entry_count += header.num_keys as u64;
                if depth > *height {
                    *height = depth;
                }
            },
            NodeType::Internal => {
                *internal_count += 1;
                if depth > *height {
                    *height = depth;
                }
                let ghost h1 = *height;
                let child_ids = collect_children(page, header.num_keys);
                let ghost cs = t->children;
                let n: usize = child_ids.len();
                let mut i: usize = 0;
                assert(cs.take(0) =~= Seq::<Tree>::empty());
                assert(cs[0].depth() >= 1);
                proof {
                    lemma_forest_within(cs, 0);
                }
                while i < n
                    invariant
                        i <= n,
                        n == child_ids@.len(),
                        t is Internal,
                        cs == t->children,
                        n == cs.len(),
                        rooted(p0, page_id, t),
                        p0 == old(pager).pages(),
                        forall|j: int| 0 <= j < n ==> child_ids@[j] == (#[trigger] cs[j]).id(),
                        only_read(old(pager), pager, t),
                        depth + t.depth() <= u32::MAX + 1,
                        t.depth() >= 2,
                        n0 + t.node_count() <= u64::MAX,
                        e0 + t.entries().len() <= u64::MAX,
                        l0 + i0 == n0,
                        h1 == (if h0 >= depth {
                            h0
                        } else {
                            depth
                        }),
                        *height == (if h1 >= depth + forest_depth(cs.take(i as int)) {
                            h1 as int
                        } else {
                            depth + forest_depth(cs.take(i as int))
                        }),
                        *node_count == n0 + 1 + forest_nodes(cs.take(i as int)),
                        *leaf_count == l0 + forest_leaves(cs.take(i as int)),
                        *internal_count == i0 + 1 + forest_nodes(cs.take(i as int))
                            - forest_leaves(cs.take(i as int)),
                        *entry_count == e0 + forest_entries(cs.take(i as int)).len(),
                    decreases n - i,
                {
                    proof {
                        lemma_reach_child(t, i as int);
                        lemma_forest_next(cs, i as int);
                        lemma_forest_within(cs, i as int);
                        assert(child_at(p0[page_id], i as int) == cs[i as int].id());
                    }
                    let ghost pg = *pager;
                    self.inspect_node(
                        pager,
                        child_ids[i],
                        depth + 1,
                        height,
                        node_count,
                        leaf_count,
                        internal_count,
                        entry_count,
                        Ghost(cs[i as int]),
                    )?;
                    proof {
                        lemma_read_child(old(pager), &pg, pager, t, i as int);
                    }
                    i += 1;
                }
                assert(cs.take(i as int) =~= cs);
            },
        }
        Ok(())
    }

    /// Verify the B-tree is well-formed.
    pub fn verify(&self, pager: &mut Pager) -> (r: Result<(u64, u64)>)
        requires
            old(pager).wf(),
            sound(old(pager).pages(), self.root()) || has_tree(old(pager).pages(), self.root())
                && countable(tree_of(old(pager).pages(), self.root())),
        ensures
            only_read(old(pager), final(pager), tree_of(old(pager).pages(), self.root())),
            stays_in_step(old(pager), final(pager), self.root()),
            ({
                let t = tree_of(old(pager).pages(), self.root());
                match r {
                    Ok(c) => t.ordered(None, None) && c.0 == t.node_count() && c.1
                        == t.key_count(),
                    Err(e) => !t.ordered(None, None) && e is CorruptedData,
                }
            }),
    {
        let mut pages_checked: u64 = 0;
        let mut entries_checked: u64 = 0;
        let ghost t = tree_of(pager.pages(), self.root());
        let ghost p0 = *pager;
        proof {
            if sound(pager.pages(), self.root()) {
                law_sound_is_healthy(pager.pages(), self.root());
            }
        }
        let r = self.verify_node(
            pager,
            self.root_page_id(),
            None,
            None,
            &mut pages_checked,
            &mut entries_checked,
            Ghost(t),
        );
        proof {
            if in_step(&p0) {
                lemma_read_in_step(&p0, pager, self.root());
            }
        }
        r?;
        Ok((pages_checked, entries_checked))
    }

    fn verify_node(
        &self,
        pager: &mut Pager,
        page_id: PageId,
        lower_bound: Option<&[u8]>,
        upper_bound: Option<&[u8]>,
        pages_checked: &mut u64,
        entries_checked: &mut u64,
        Ghost(t): Ghost<Tree>,
    ) -> (r: Result<()>)
        requires
            old(pager).wf(),
            rooted(old(pager).pages(), page_id, t),
            *old(pages_checked) + t.node_count() <= u64::MAX,
            *old(entries_checked) + t.key_count() <= u64::MAX,
        ensures
            only_read(old(pager), final(pager), t),
            match r {
                Ok(_) => {
                    &&& t.ordered(opt_view(lower_bound), opt_view(upper_bound))
                    &&& *final(pages_checked) == *old(pages_checked) + t.node_count()
                    &&& *final(entries_checked) == *old(entries_checked) + t.key_count()
                },
                Err(e) => !t.ordered(opt_view(lower_bound), opt_view(upper_bound))
                    && e is CorruptedData,
            },
        decreases t,
    {
        let ghost p0 = pager.pages();
        let ghost n0 = *pages_checked;
        let ghost e0 = *entries_checked;
        let ghost lb = opt_view(lower_bound);
        let ghost ub = opt_view(upper_bound);
        assert(t.owns(page_id));
        let page = pager.get_page(page_id)?;
        let header = read_header(page);
        *pages_checked += 1;
        let ghost s = entries_of(p0[page_id]);
        assert(t is Leaf ==> s == t->entries);
        assert(t is Internal ==> s == t->keys);
        // Verify keys are in order and within bounds
        let keys = match checked_keys(page, header.num_keys, lower_bound, upper_bound) {
            Some(keys) => keys,
            None => {
                return Err(KvdbError::CorruptedData);
            },
        };
        *entries_checked += keys.len() as u64;
        if header.node_type == NodeType::Internal {
            let child_ids = collect_children(page, header.num_keys);
            let ghost cs = t->children;
            let n: usize = child_ids.len();
            let mut i: usize = 0;
            assert(cs.take(0) =~= Seq::<Tree>::empty());
            while i < n
                invariant
                    i <= n,
                    n == child_ids@.len(),
                    t is Internal,
                    cs == t->children,
                    n == cs.len(),
                    s == t->keys,
                    n == s.len() + 1,
                    keys@.len() == s.len(),
                    forall|j: int| 0 <= j < s.len() ==> #[trigger] keys@[j]@ == s[j].0,
                    lb == opt_view(lower_bound),
                    ub == opt_view(upper_bound),
                    rooted(p0, page_id, t),
                    p0 == old(pager).pages(),
                    forall|j: int| 0 <= j < n ==> child_ids@[j] == (#[trigger] cs[j]).id(),
                    only_read(old(pager), pager, t),
                    n0 + t.node_count() <= u64::MAX,
                    e0 + t.key_count() <= u64::MAX,
                    *pages_checked == n0 + 1 + forest_nodes(cs.take(i as int)),
                    *entries_checked == e0 + s.len() + forest_keys(cs.take(i as int)),
                    forall|j: int|
                        0 <= j < i ==> (#[trigger] cs[j]).ordered(
                            lower(s, lb, j),
                            upper(s, ub, j),
                        ),
                decreases n - i,
            {
                proof {
                    lemma_reach_child(t, i as int);
                    lemma_forest_next(cs, i as int);
                    lemma_forest_within(cs, i as int);
                    assert(child_at(p0[page_id], i as int) == cs[i as int].id());
                }
                let lo = if i == 0 {
                    lower_bound
                } else {
                    Some(keys[i - 1].as_slice())
                };
                let hi = if i == keys.len() {
                    upper_bound
                } else {
                    Some(keys[i].as_slice())
                };
                assert(opt_view(lo) == lower(s, lb, i as int));
                assert(opt_view(hi) == upper(s, ub, i as int));
                let ghost pg = *pager;
                let r = self.verify_node(
                    pager,
                    child_ids[i],
                    lo,
                    hi,
                    pages_checked,
                    entries_checked,
                    Ghost(cs[i as int]),
                );
                proof {
                    lemma_read_child(old(pager), &pg, pager, t, i as int);
                }
                if r.is_err() {
                    assert(!cs[i as int].ordered(lower(s, lb, i as int), upper(s, ub, i as int)));
                    return r;
                }
                i += 1;
            }
            assert(cs.take(i as int) =~= cs);
        }
        Ok(())
    }
}

} // verus!
