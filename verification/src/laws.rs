use vstd::prelude::*;
use crate::list::{above, SearchResult, SkipList};
use crate::memory::HEAD_ADDR;
use crate::tagged::NULL;
use crate::height::{proposed_height, xorshift};
use crate::node::{GeneratesHeight, HEIGHT};
use crate::order::{lemma_lt_irrefl, lemma_lt_trans, lt, total_order};
use crate::reclaim::{addr_or_null, NodeRef};

verus! {

impl<K: Ord, V> SkipList<K, V> {
    /// The keys of the nodes that level `l` links, in the order of the level.
    pub open(crate) spec fn level_keys(self, l: int) -> Seq<K> {
        Seq::new(self.mem.chain(l).len(), |i: int| self.mem.key(self.mem.chain(l)[i]))
    }

    /// The nodes that level `l` links, in the order of the level.
    pub open(crate) spec fn level_nodes(self, l: int) -> Seq<NodeRef> {
        Seq::new(self.mem.chain(l).len(), |i: int| (NodeRef { addr: self.mem.chain(l)[i] }))
    }

    /// Level `l` links the node that the reference stands on.
    pub open(crate) spec fn links(self, r: NodeRef, l: int) -> bool {
        self.mem.linked(r.addr, l)
    }

    /// Number of levels that link the node that the reference stands on.
    pub open(crate) spec fn link_total(self, r: NodeRef) -> int {
        self.mem.link_count(r.addr, HEIGHT as int)
    }

    /// The node that the reference stands on is an entry of the map.
    pub open(crate) spec fn is_entry(self, r: NodeRef) -> bool {
        self.present(r.addr)
    }

    /// The node that the reference stands on has been retired and waits to
    /// be freed.
    pub open(crate) spec fn retired(self, r: NodeRef) -> bool {
        self.garbage.holds(r.addr)
    }

    /// Order: at every level the keys ascend strictly.
    pub proof fn law_order(self, l: int, i: int, j: int)
        requires
            self.wf(),
            0 <= l < HEIGHT,
            0 <= i < j < self.level_keys(l).len(),
        ensures
            lt(self.level_keys(l)[i], self.level_keys(l)[j]),
    {
        reveal(SkipList::inv);
        assert(self.mem.chain_ok(l));
    }

    /// Links: every node of a level is in memory and tall enough for the
    /// level, holds the key that the level lists at its place, and points to
    /// the next node of the level, the last one to nothing.
    pub proof fn law_links(self, l: int, i: int)
        requires
            self.wf(),
            0 <= l < HEIGHT,
            0 <= i < self.level_nodes(l).len(),
        ensures
            self.level_keys(l).len() == self.level_nodes(l).len(),
            self.has_node(self.level_nodes(l)[i]),
            self.links(self.level_nodes(l)[i], l),
            l < self.node_of(self.level_nodes(l)[i]).spec_height(),
            self.node_of(self.level_nodes(l)[i]).key == self.level_keys(l)[i],
            self.node_of(self.level_nodes(l)[i]).next(l) == if i + 1 < self.level_nodes(l).len() {
                self.level_nodes(l)[i + 1].addr
            } else {
                NULL
            },
    {
        reveal(SkipList::inv);
        let c = self.mem.chain(l);
        assert(self.mem.chain_ok(l));
        assert(self.mem.live(c[i]));
        self.mem.lemma_live_addr(c[i]);
        assert(self.mem.next(c[i], l) == self.mem.next_at(l, i + 1));
        assert(c.contains(c[i]));
    }

    /// Order of the entries that an iteration yields: the keys of level 0
    /// ascend strictly.
    pub proof fn law_ascending(self, i: int, j: int)
        requires
            self.wf(),
            0 <= i < j < self.level0().len(),
        ensures
            lt(self.level0()[i].0, self.level0()[j].0),
    {
        reveal(SkipList::inv);
        assert(self.mem.chain_ok(0));
    }

    /// Tower prefix: an entry is linked at every level below its height and
    /// at no other.
    pub proof fn law_tower_prefix(self, r: NodeRef, l: int)
        requires
            self.wf(),
            self.is_entry(r),
            0 <= l < HEIGHT,
        ensures
            self.has_node(r),
            self.links(r, l) <==> l < self.node_of(r).spec_height(),
    {
        self.lemma_present(r.addr);
        reveal(SkipList::inv);
        assert(self.mem.node_ok(r.addr));
        assert(self.mem.tower_complete(r.addr));
    }

    /// Reference count: the count of a node is the number of levels that
    /// link it; for an entry that is its height.
    pub proof fn law_ref_count(self, r: NodeRef)
        requires
            self.wf(),
            self.has_node(r),
        ensures
            self.node_of(r).spec_refs() == self.link_total(r),
            self.is_entry(r) ==> self.node_of(r).spec_refs() == self.node_of(r).spec_height(),
    {
        reveal(SkipList::inv);
        assert(self.mem.node_ok(r.addr));
        assert(self.mem.tower_complete(r.addr));
        if self.mem.tag(r.addr, 0) == 0 {
            self.mem.lemma_count_prefix(
                r.addr,
                HEIGHT as int,
                self.node_of(r).spec_refs() as int,
            );
        }
        if self.is_entry(r) {
            self.lemma_present(r.addr);
        }
    }

    /// A node with reference count 0 is reachable at no level, and so is
    /// every retired node.
    pub proof fn law_unreachable(self, r: NodeRef, l: int)
        requires
            self.wf(),
            self.has_node(r),
            self.node_of(r).spec_refs() == 0 || self.retired(r),
            0 <= l < HEIGHT,
        ensures
            !self.links(r, l),
            self.node_of(r).spec_refs() == 0,
    {
        reveal(SkipList::inv);
        if self.retired(r) {
            let i = choose|i: int|
                0 <= i < self.garbage.retired@.len() && self.garbage.retired@[i] == r.addr;
            assert(self.retired_ok(self.garbage.retired@[i]));
        }
        self.law_ref_count(r);
        self.mem.lemma_count_zero(r.addr, HEIGHT as int);
    }

    /// No resurrection, and what helping does: a search leaves every node
    /// in memory, with the key, the value, the height, the removed flag and
    /// the tags that it had. A node without a tag keeps its links and its
    /// count. A tagged node may have left levels and never gains one; its
    /// count is the number of levels that still link it; and it is among the
    /// retired exactly if it was, or if its count has come down to 0.
    pub proof fn law_helping(self, old: Self, r: NodeRef, l: int)
        requires
            old.wf(),
            self.wf(),
            self.helped(old),
            old.has_node(r),
            0 <= l < HEIGHT,
        ensures
            self.has_node(r),
            self.node_of(r).key == old.node_of(r).key,
            self.node_of(r).val == old.node_of(r).val,
            self.node_of(r).spec_height() == old.node_of(r).spec_height(),
            self.node_of(r).spec_removed() == old.node_of(r).spec_removed(),
            self.node_of(r).tag(0) == old.node_of(r).tag(0),
            self.links(r, l) ==> old.links(r, l),
            old.node_of(r).tag(0) == 0 ==> (self.links(r, l) <==> old.links(r, l))
                && self.node_of(r).spec_refs() == old.node_of(r).spec_refs(),
            self.node_of(r).spec_refs() <= old.node_of(r).spec_refs(),
            self.node_of(r).spec_refs() == self.link_total(r),
            self.retired(r) <==> old.retired(r) || (old.node_of(r).spec_refs() > 0
                && self.node_of(r).spec_refs() == 0),
            self.spec_len() == old.spec_len(),
    {
        self.lemma_helped_node(old, r.addr);
        self.lemma_helped_kept(old);
        self.lemma_kept_node(old, r.addr);
        self.law_ref_count(r);
        old.mem.lemma_live_addr(r.addr);
        reveal(SkipList::helped);
        assert(self.mem.node(r.addr).spec_refs() <= old.mem.node(r.addr).spec_refs());
    }

    /// What a search has walked is swept: a tagged node whose key lies
    /// behind the node from which the search entered a level, and before the
    /// key that was searched, is linked at that level no more.
    pub proof fn law_swept(self, key: K, closest: bool, r: SearchResult, m: NodeRef, l: int)
        requires
            total_order::<K>(),
            self.wf(),
            self.found(key, closest, r),
            0 <= l < HEIGHT,
            self.has_node(m),
            self.node_of(m).tag(0) != 0,
            lt(self.node_of(m).key, key),
            above(r.prev@, l) == HEAD_ADDR || lt(
                self.node_of((NodeRef { addr: above(r.prev@, l) })).key,
                self.node_of(m).key,
            ),
        ensures
            !self.links(m, l),
    {
        reveal(SkipList::found);
        reveal(SkipList::inv);
        self.mem.lemma_live_addr(m.addr);
        if self.links(m, l) {
            let c = self.mem.chain(l);
            let i = choose|i: int| 0 <= i < c.len() && c[i] == m.addr;
            let lo = r.from@[l];
            let hi = r.pos@[l];
            assert(self.swept(l, lo, hi));
            assert(self.mem.found_at(key, l, hi, r.prev@[l].0.addr, addr_or_null(r.prev@[l].1)));
            assert(self.mem.chain_ok(l));
            assert(self.mem.key(c[i]) == self.node_of(m).key);
            if i > hi {
                lemma_lt_trans(self.mem.key(c[hi]), self.mem.key(c[i]), key);
            }
            if i < lo {
                assert(self.mem.live(c[lo - 1]));
                self.mem.lemma_live_addr(c[lo - 1]);
                if i < lo - 1 {
                    lemma_lt_trans(self.mem.key(c[i]), self.mem.key(c[lo - 1]), self.mem.key(c[i]));
                }
                lemma_lt_irrefl(self.mem.key(c[lo - 1]), self.mem.key(c[i]));
            }
            assert(self.mem.tag(c[i], 0) == 0);
        }
    }

    /// Populated levels: no level from `populated()` up links a node, and
    /// the level just below it does, unless the list links none at all.
    pub proof fn law_populated(self, l: int)
        requires
            self.wf(),
            0 <= l < HEIGHT,
        ensures
            0 <= self.populated() <= HEIGHT,
            l >= self.populated() ==> self.level_keys(l).len() == 0,
            l == self.populated() - 1 ==> self.level_keys(l).len() > 0,
    {
        self.lemma_populated_bounds(HEIGHT as int);
        if self.mem.chain(l).len() > 0 {
            self.lemma_populated_at(HEIGHT as int, l);
        }
    }

    /// There is room for another node as long as fewer than a thousand
    /// million slots have been taken.
    pub proof fn law_room(self)
        requires
            self.slots() <= 1_000_000_000,
        ensures
            self.has_room(),
    {
        assert(usize::MAX >= 0xffff_ffff);
    }

    /// A draw yields the next height, between 1 and `HEIGHT`, and changes
    /// nothing but the height stream: the map and the length stay, and the
    /// greatest height drawn never goes down.
    pub proof fn law_draw(pre: Self, post: Self, height: usize)
        requires
            total_order::<K>(),
            pre.wf(),
            <Self as GeneratesHeight>::draws(pre, post, height),
        ensures
            post.wf(),
            post.view() == pre.view(),
            post.spec_len() == pre.spec_len(),
            height == pre.next_height(),
            1 <= height <= HEIGHT,
            post.seed() == xorshift(pre.seed()),
            pre.max_height() <= post.max_height(),
            post.max_height() == if height > pre.max_height() {
                height
            } else {
                pre.max_height()
            },
    {
        Self::lemma_draws(pre, post, height);
        pre.mem.lemma_capped(proposed_height(xorshift(pre.state.seed)) as int);
        vstd::std_specs::bits::axiom_u64_trailing_zeros(xorshift(pre.state.seed));
        pre.lemma_max_height();
        post.lemma_raise(pre);
        post.lemma_view_same(pre);
    }

    /// Length: the map has as many keys as the list has entries, and a
    /// list whose length is exact reports that number.
    pub proof fn law_length(self)
        requires
            total_order::<K>(),
            self.wf(),
        ensures
            self.view().dom().finite(),
            self.live_count() == self.view().dom().len(),
            self.counted() ==> self.spec_len() == self.view().dom().len(),
    {
        self.lemma_finite();
        let f = |a: usize| self.mem.key(a);
        let x = self.present_set();
        let y = self.view().dom();
        assert(vstd::relations::injective_on(f, x)) by {
            assert forall|a: usize, b: usize|
                x.contains(a) && x.contains(b) && #[trigger] f(a) == #[trigger] f(b) implies a
                == b by {
                self.lemma_unique(a, b);
            }
        }
        assert(x.map(f) =~= y) by {
            assert forall|k: K| x.map(f).contains(k) <==> y.contains(k) by {
                if x.map(f).contains(k) {
                    let a = choose|a: usize| x.contains(a) && f(a) == k;
                    assert(self.present(a) && self.mem.key(a) == k);
                }
                if y.contains(k) {
                    let a = self.holder(k);
                    assert(x.contains(a) && f(a) == k);
                }
            }
        }
        vstd::set_lib::lemma_map_size(x, y, f);
    }

    /// In a list that is unmarked, no key is shadowed.
    pub proof fn law_unshadowed(self, key: K)
        requires
            self.wf(),
            self.unmarked(),
        ensures
            !self.shadowed(key),
    {
        if self.shadowed(key) {
            let a = choose|a: usize|
                self.mem.linked(a, 0) && self.mem.node(a).spec_removed() && self.mem.tag(a, 0) == 0
                    && self.mem.key(a) == key;
            let i = choose|i: int| 0 <= i < self.mem.chain(0).len() && self.mem.chain(0)[i] == a;
            assert(self.mem.chain(0)[i] == a);
        }
    }

    /// In a list that is clean and unmarked, level 0 lists the map: each of
    /// its entries is in the map, with its value.
    pub proof fn law_level0_in_view(self, i: int)
        requires
            total_order::<K>(),
            self.wf(),
            self.clean(),
            self.unmarked(),
            0 <= i < self.level0().len(),
        ensures
            self.view().contains_key(self.level0()[i].0),
            self.view()[self.level0()[i].0] == self.level0()[i].1,
    {
        let a = self.mem.chain(0)[i];
        assert(self.mem.linked(a, 0));
        assert(self.present(a));
        self.lemma_holder(a);
    }

    /// In a list that is clean and unmarked, level 0 holds the entries and
    /// nothing else: it is as long as the map has keys.
    pub proof fn law_level0_count(self)
        requires
            total_order::<K>(),
            self.wf(),
            self.clean(),
            self.unmarked(),
        ensures
            self.level0().len() == self.live_count(),
            self.level0().len() == self.view().dom().len(),
    {
        reveal(SkipList::inv);
        let c = self.mem.chain(0);
        assert(self.mem.chain_ok(0));
        self.mem.lemma_chain_distinct(0);
        c.unique_seq_to_set();
        assert(self.present_set() =~= c.to_set()) by {
            assert forall|a: usize| c.to_set().contains(a) implies self.present(a) by {
                let i = choose|i: int| 0 <= i < c.len() && c[i] == a;
                assert(self.mem.tag(c[i], 0) == 0);
            }
            assert forall|a: usize| self.present(a) implies c.to_set().contains(a) by {
                assert(c.contains(a));
            }
        }
        self.law_length();
    }

    /// In a list that is well formed, every key of the map is the key of an
    /// entry of level 0.
    pub proof fn law_view_in_level0(self, key: K) -> (i: int)
        requires
            self.wf(),
            self.view().contains_key(key),
        ensures
            0 <= i < self.level0().len(),
            self.level0()[i].0 == key,
    {
        let a = self.holder(key);
        let i = choose|i: int| 0 <= i < self.mem.chain(0).len() && self.mem.chain(0)[i] == a;
        i
    }

    /// Inserting and then getting the key gives the value that went in.
    pub proof fn law_insert_get(before: Self, after: Self, key: K, val: V, got: Option<(K, V)>)
        requires
            after.view() == before.view().insert(key, val),
            got.is_some() <==> after.view().contains_key(key),
            got.is_some() ==> got.unwrap() == (key, after.view()[key]),
        ensures
            got == Some((key, val)),
    {
    }

    /// Inserting a key twice leaves the second value.
    pub proof fn law_replace(
        before: Self,
        between: Self,
        after: Self,
        key: K,
        first: V,
        second: V,
        got: Option<(K, V)>,
    )
        requires
            between.view() == before.view().insert(key, first),
            after.view() == between.view().insert(key, second),
            got.is_some() <==> after.view().contains_key(key),
            got.is_some() ==> got.unwrap() == (key, after.view()[key]),
        ensures
            got == Some((key, second)),
            after.view() == before.view().insert(key, second),
    {
        assert(before.view().insert(key, first).insert(key, second) =~= before.view().insert(
            key,
            second,
        ));
    }

    /// Inserting and then removing the key gives the entry back and leaves
    /// the key out of the map.
    pub proof fn law_insert_remove(
        before: Self,
        between: Self,
        after: Self,
        key: K,
        val: V,
        removed: Option<(K, V)>,
        got: Option<(K, V)>,
    )
        requires
            between.view() == before.view().insert(key, val),
            after.view() == between.view().remove(key),
            removed.is_some() <==> between.view().contains_key(key),
            removed.is_some() ==> removed.unwrap() == (key, between.view()[key]),
            got.is_some() <==> after.view().contains_key(key),
        ensures
            removed == Some((key, val)),
            got.is_none(),
    {
    }

    /// Of two removals of a key, one after the other, at most the first
    /// gives an entry back.
    pub proof fn law_remove_once(
        before: Self,
        between: Self,
        key: K,
        first: Option<(K, V)>,
        second: Option<(K, V)>,
    )
        requires
            between.view() == before.view().remove(key),
            first.is_some() <==> before.view().contains_key(key),
            second.is_some() <==> between.view().contains_key(key),
        ensures
            second.is_none(),
            first.is_some() == before.view().contains_key(key),
    {
    }
}

} // verus!
