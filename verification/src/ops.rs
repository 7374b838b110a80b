use vstd::prelude::*;
use crate::list::{Probe, SearchResult, SkipList};
use crate::node::GeneratesHeight;
use crate::memory::HEAD_ADDR;
use crate::node::{Node, HEIGHT};
use crate::order::{lemma_lt_irrefl, lemma_lt_total, lemma_lt_trans, lt, total_order};
use crate::reclaim::{addr_or_null, NodeRef};
use crate::tagged::NULL;

verus! {

/// An entry of the list, borrowed from it: while the entry is held the list
/// cannot change, so the node it stands on cannot be freed.
pub struct Entry<'a, K, V> {
    pub node: &'a Node<K, V>,
}

impl<'a, K, V> Entry<'a, K, V> {
    /// The key of the entry.
    pub open spec fn spec_key(&self) -> K {
        self.node.key
    }

    /// The value of the entry.
    pub open spec fn spec_val(&self) -> V {
        self.node.val
    }

    /// The value of the entry.
    pub fn val(&self) -> (v: &V)
        ensures
            *v == self.spec_val(),
    {
        &self.node.val
    }

    /// The key of the entry.
    pub fn key(&self) -> (k: &K)
        ensures
            *k == self.spec_key(),
    {
        &self.node.key
    }
}

impl<K: Ord, V> SkipList<K, V> {
    /// A search for a key has the key's entry as its target, and none if
    /// the map does not hold the key.
    pub(crate) proof fn lemma_found_target(self, key: K, r: SearchResult)
        requires
            total_order::<K>(),
            self.inv(),
            self.found(key, false, r),
        ensures
            r.target.is_some() <==> self.has_key(key),
            r.target.is_some() ==> self.present(r.target.unwrap().addr) && self.mem.key(
                r.target.unwrap().addr,
            ) == key && self.holder(key) == r.target.unwrap().addr && self.mem.live(
                r.target.unwrap().addr,
            ) && self.mem.tag(r.target.unwrap().addr, 0) == 0 && self.garbage.protects(
                r.target.unwrap().addr,
            ) && r.target.unwrap().addr != NULL,
            r.prev@.len() == HEIGHT,
            r.pos@.len() == HEIGHT,
    {
        reveal(SkipList::found);
        let j = r.pos@[0];
        let c = self.mem.chain(0);
        assert(self.mem.found_at(key, 0, j, r.prev@[0].0.addr, addr_or_null(r.prev@[0].1)));
        if j < c.len() {
            self.lemma_elem(0, j);
        }
        self.lemma_end(0, j);
        if self.has_key(key) {
            let a = self.holder(key);
            let i = choose|i: int| 0 <= i < c.len() && c[i] == a;
            self.lemma_at_bracket(key, 0, j, i);
        }
        if r.target.is_some() {
            let t = r.target.unwrap().addr;
            assert(self.present(t) && self.mem.key(t) == key);
            self.lemma_holder(t);
        }
    }

    /// A node that holds `key` stands at the position that brackets `key`.
    pub(crate) proof fn lemma_at_bracket(self, key: K, l: int, j: int, i: int)
        requires
            total_order::<K>(),
            self.inv(),
            0 <= l < HEIGHT,
            self.mem.bracket(key, l, j),
            0 <= i < self.mem.chain(l).len(),
            self.mem.key(self.mem.chain(l)[i]) == key,
        ensures
            i == j,
    {
        reveal(SkipList::inv);
        assert(self.mem.chain_ok(l));
        let c = self.mem.chain(l);
        if i < j {
            if i < j - 1 {
                lemma_lt_trans(self.mem.key(c[i]), self.mem.key(c[j - 1]), key);
            }
            lemma_lt_irrefl(self.mem.key(c[i]), key);
        } else if i > j {
            assert(lt(self.mem.key(c[j]), self.mem.key(c[i])));
        }
    }

    /// Giving up every protection changes neither structure nor map.
    pub(crate) proof fn lemma_unguard(self, old: Self)
        requires
            total_order::<K>(),
            old.inv(),
            self.mem == old.mem,
            self.state == old.state,
            self.garbage.retired@ == old.garbage.retired@,
        ensures
            self.inv(),
            self.view() == old.view(),
            self.live_count() == old.live_count(),
            self.level0() == old.level0(),
            self.clean() == old.clean(),
            self.unmarked() == old.unmarked(),
            self.same_memory(old),
            self.tagless() == old.tagless(),
    {
        assert(self.inv()) by {
            reveal(SkipList::inv);
        }
        self.lemma_view_same(old);
        self.lemma_level0_mem(old);
    }

    /// The target of a search, once marked removed and tagged, is aimed at
    /// every level below its height, and its key has left the map.
    pub(crate) proof fn lemma_target_aimed(self, s1: Self, key: K, r: SearchResult)
        requires
            total_order::<K>(),
            s1.inv(),
            s1.mem.complete(),
            s1.found(key, false, r),
            r.target.is_some(),
            s1.mem.relabelled(self.mem, r.target.unwrap().addr, 1),
            self.mem.node(r.target.unwrap().addr).spec_removed(),
            self.state == s1.state,
            self.garbage == s1.garbage,
        ensures
            self.inv(),
            self.mem.complete(),
            self.aimed(
                r.target.unwrap().addr,
                r.prev@,
                r.pos@,
                s1.mem.node(r.target.unwrap().addr).spec_height() as int,
            ),
            self.view() == s1.view().remove(key),
            self.live_count() == s1.live_count() - 1,
            s1.live_count() >= 1,
            self.mem.nodes@.len() == s1.mem.nodes@.len(),
            s1.unmarked() ==> self.unmarked(),
            self.mem.node(r.target.unwrap().addr).spec_height() == s1.mem.node(
                r.target.unwrap().addr,
            ).spec_height(),
            self.mem.chains@ == s1.mem.chains@,
            forall|a: usize|
                a != r.target.unwrap().addr && s1.mem.linked(a, 0) ==> #[trigger] self.mem.tag(a, 0)
                    == s1.mem.tag(a, 0),
    {
        let t = r.target.unwrap().addr;
        assert forall|a: usize| a != t && s1.mem.linked(a, 0) implies #[trigger] self.mem.tag(a, 0)
            == s1.mem.tag(a, 0) by {
            s1.lemma_present(a);
            s1.mem.lemma_live_addrs();
            assert(self.mem.node_same(s1.mem, a));
            reveal(SkipList::inv);
            assert(s1.mem.node_ok(a));
        }
        if s1.unmarked() {
            assert forall|i: int|
                0 <= i < self.mem.chain(0).len() && self.mem.node(
                    #[trigger] self.mem.chain(0)[i],
                ).spec_removed() implies self.mem.tag(self.mem.chain(0)[i], 0) == 1 by {
                let a = self.mem.chain(0)[i];
                assert(s1.mem.chain(0)[i] == a);
                s1.lemma_elem(0, i);
                s1.mem.lemma_live_addrs();
                if a != t {
                    assert(self.mem.node_same(s1.mem, a));
                }
            }
        }
        s1.lemma_found_target(key, r);
        reveal(SkipList::found);
        reveal(SkipList::inv);
        reveal(SkipList::aimed);
        s1.mem.lemma_live_addrs();
        s1.mem.lemma_relabel(self.mem, t, 1);
        assert(s1.mem.node_ok(t));
        assert(s1.mem.tower_complete(t));
        let h = s1.mem.node(t).spec_height() as int;
        assert(s1.mem.linked(t, 0));
        assert(s1.mem.node(t).spec_refs() == h);
        assert forall|k: int| self.state.max_height <= k < HEIGHT implies (
        #[trigger] self.mem.chain(k)).len() == 0 by {
            assert(s1.mem.chain(k).len() == 0);
        }
        assert forall|m: int| 0 <= m < self.garbage.retired@.len() implies self.retired_ok(
            #[trigger] self.garbage.retired@[m],
        ) by {
            let a = s1.garbage.retired@[m];
            assert(s1.retired_ok(a));
            assert(a != t);
            assert(self.mem.node_same(s1.mem, a));
            assert(s1.mem.node_ok(a));
        }
        assert forall|a: usize| #[trigger] self.mem.live(a) implies self.mem.tower_complete(a) by {
            if a != t {
                assert(s1.mem.live(a));
                assert(s1.mem.tower_complete(a));
                assert(self.mem.node_same(s1.mem, a));
                assert(s1.mem.node_ok(a));
            }
        }
        assert forall|l: int| 0 <= l < h implies 0 <= #[trigger] r.pos@[l] < self.mem.chain(l).len()
            && self.mem.chain(l)[r.pos@[l]] == t && r.prev@[l].0.addr == self.mem.pred_at(
            l,
            r.pos@[l],
        ) && self.mem.tag(self.mem.pred_at(l, r.pos@[l]), l) == 0 by {
            assert(s1.mem.found_at(key, l, r.pos@[l], r.prev@[l].0.addr, addr_or_null(r.prev@[l].1)));
            assert(s1.mem.linked(t, l));
            let c = s1.mem.chain(l);
            let i = choose|i: int| 0 <= i < c.len() && c[i] == t;
            s1.lemma_at_bracket(key, l, r.pos@[l], i);
            s1.lemma_pred(l, r.pos@[l]);
            let p = s1.mem.pred_at(l, r.pos@[l]);
            assert(self.mem.chain(l) == s1.mem.chain(l));
            if p != HEAD_ADDR {
                s1.lemma_elem(l, r.pos@[l] - 1);
                s1.mem.lemma_chain_distinct(l);
                assert(s1.mem.chain_ok(l));
                assert(p != t);
                assert(self.mem.node_same(s1.mem, p));
                assert(s1.mem.node_ok(p));
            }
        }
        assert forall|l: int| h <= l < HEIGHT implies !(#[trigger] self.mem.linked(t, l)) by {
            assert(self.mem.chain(l) == s1.mem.chain(l));
            assert(!s1.mem.linked(t, l));
        }
        assert forall|a: usize| self.present(a) <==> s1.present(a) && a != t by {
            assert(self.mem.chain(0) == s1.mem.chain(0));
            if s1.mem.linked(a, 0) && a != t {
                s1.lemma_present(a);
                assert(self.mem.node_same(s1.mem, a));
            }
        }
        assert forall|a: usize| s1.present(a) && a != t implies self.mem.key(a) == s1.mem.key(a)
            && self.mem.node(a).val == s1.mem.node(a).val by {
            s1.lemma_present(a);
            assert(self.mem.node_same(s1.mem, a));
        }
        self.lemma_view_drop(s1, t);
        s1.lemma_finite();
        assert(s1.present_set().contains(t));
        if s1.present_set().len() == 0 {
            assert(s1.present_set() =~= Set::empty());
        }
    }

    /// Searches for `key`: unlinks every tagged node on its way and returns,
    /// for every level, the last node in front of the key and the node after
    /// it, and as the target the entry with the key, if the map has one.
    /// With `search_closest` the target is the node after the key's place at
    /// level 0 whatever it holds, `None` at the end of the list.
    ///
    /// The references in the result are protected until the next operation
    /// on the list ends.
    pub fn find(&mut self, key: &K, search_closest: bool) -> (r: SearchResult)
        requires
            total_order::<K>(),
            old(self).wf(),
        ensures
            final(self).wf(),
            final(self).view() == old(self).view(),
            final(self).spec_len() == old(self).spec_len(),
            final(self).live_count() == old(self).live_count(),
            final(self).max_height() == old(self).max_height(),
            final(self).seed() == old(self).seed(),
            final(self).slots() == old(self).slots(),
            final(self).helped(*old(self)),
            final(self).keeps_nodes(*old(self)),
            old(self).tagless() ==> final(self).same_memory(*old(self)),
            old(self).clean() ==> final(self).clean(),
            old(self).unmarked() ==> final(self).unmarked(),
            final(self).found(*key, search_closest, r),
            !search_closest ==> (r.target.is_some() <==> old(self).view().contains_key(*key)),
            !search_closest && r.target.is_some() ==> final(self).holder(*key)
                == r.target.unwrap().addr,
            r.target.is_some() ==> final(self).has_node(r.target.unwrap()) && final(self).node_of(
                r.target.unwrap(),
            ).tag(0) == 0 && final(self).links(r.target.unwrap(), 0),
    {
        let r = self.find_probe(&Probe::Key(key), search_closest);
        proof {
            self.lemma_helped_nodes(*old(self));
            self.lemma_helped_kept(*old(self));
            self.lemma_kept_view(*old(self));
            self.lemma_kept_unmarked(*old(self));
            self.lemma_kept_node(*old(self), NULL);
            if !search_closest {
                self.lemma_found_target(*key, r);
            } else {
                self.lemma_closest_live(*key, r);
            }
            if r.target.is_some() {
                self.mem.lemma_live_addr(r.target.unwrap().addr);
            }
        }
        r
    }

    /// The target of a search for the closest node is a node of level 0.
    pub(crate) proof fn lemma_closest_live(self, key: K, r: SearchResult)
        requires
            self.inv(),
            self.found(key, true, r),
        ensures
            r.target.is_some() ==> self.mem.live(r.target.unwrap().addr) && self.mem.linked(
                r.target.unwrap().addr,
                0,
            ) && self.mem.tag(r.target.unwrap().addr, 0) == 0,
    {
        reveal(SkipList::found);
        let j = r.pos@[0];
        assert(self.mem.found_at(key, 0, j, r.prev@[0].0.addr, addr_or_null(r.prev@[0].1)));
        self.lemma_end(0, j);
        if j < self.mem.chain(0).len() {
            self.lemma_elem(0, j);
        }
    }

    /// Number of entries.
    pub fn len(&self) -> (n: usize)
        ensures
            n == self.spec_len(),
    {
        self.state.len
    }

    /// Whether the list holds no entry.
    pub fn is_empty(&self) -> (e: bool)
        ensures
            e == (self.spec_len() == 0),
    {
        self.state.len < 1
    }

    /// The entry with the given key, if the map has one.
    pub fn get<'a>(&'a mut self, key: &K) -> (r: Option<Entry<'a, K, V>>)
        requires
            total_order::<K>(),
            old(self).wf(),
        ensures
            final(self).wf(),
            final(self).view() == old(self).view(),
            final(self).spec_len() == old(self).spec_len(),
            final(self).live_count() == old(self).live_count(),
            final(self).max_height() == old(self).max_height(),
            final(self).seed() == old(self).seed(),
            final(self).slots() == old(self).slots(),
            final(self).helped(*old(self)),
            final(self).keeps_nodes(*old(self)),
            old(self).tagless() ==> final(self).same_memory(*old(self)),
            old(self).clean() ==> final(self).clean(),
            old(self).unmarked() ==> final(self).unmarked(),
            r.is_some() <==> old(self).view().contains_key(*key),
            r.is_some() ==> r.unwrap().spec_key() == *key && r.unwrap().spec_val() == old(self).view()[*key],
    {
        if self.is_empty() {
            proof {
                self.lemma_helped_refl();
                self.lemma_helped_nodes(*old(self));
                self.lemma_finite();
                if self.has_key(*key) {
                    assert(self.present_set().contains(self.holder(*key)));
                }
            }
            return None;
        }
        let r = self.find(key, false);
        let ghost found = *self;
        self.garbage.release_all();
        proof {
            self.lemma_unguard(found);
            self.lemma_helped_mem(found, *old(self));
            self.lemma_helped_nodes(*old(self));
            reveal(SkipList::inv);
        }
        match r.target {
            Some(target) => {
                proof {
                    found.lemma_holder(target.addr);
                }
                Some(Entry { node: self.mem.node_ref(target.addr) })
            },
            None => None,
        }
    }

    /// Removes the entry with the given key and returns it, if the map has
    /// one: the node is marked removed, its levels are tagged, and it is
    /// unlinked from every level and retired. The length goes down by one.
    pub fn remove<'a>(&'a mut self, key: &K) -> (r: Option<Entry<'a, K, V>>)
        requires
            total_order::<K>(),
            old(self).wf(),
        ensures
            final(self).wf(),
            final(self).view() == old(self).view().remove(*key),
            r.is_some() <==> old(self).view().contains_key(*key),
            r.is_some() ==> r.unwrap().spec_key() == *key && r.unwrap().spec_val() == old(self).view()[*key],
            final(self).spec_len() == if r.is_some() {
                (old(self).spec_len() - 1) as usize
            } else {
                old(self).spec_len()
            },
            final(self).live_count() == if r.is_some() {
                (old(self).live_count() - 1) as nat
            } else {
                old(self).live_count()
            },
            final(self).max_height() == old(self).max_height(),
            final(self).seed() == old(self).seed(),
            final(self).slots() == old(self).slots(),
            r.is_some() ==> final(self).retires(*key),
            final(self).marks_stay(*old(self)),
            r.is_none() ==> final(self).helped(*old(self)) && final(self).keeps_nodes(*old(self)),
            r.is_none() && old(self).tagless() ==> final(self).same_memory(*old(self)),
            old(self).clean() ==> final(self).clean(),
            old(self).counted() ==> final(self).counted(),
            old(self).unmarked() ==> final(self).unmarked(),
    {
        let search = self.find(key, false);
        let ghost s1 = *self;
        match search.target {
            Some(target) => {
                proof {
                    s1.lemma_found_target(*key, search);
                    s1.lemma_holder(target.addr);
                    reveal(SkipList::inv);
                    assert(s1.mem.node_ok(target.addr));
                    s1.mem.lemma_live_addr(target.addr);
                }
                // Logical removal: the mark first, then the tags.
                let node = self.mem.node_mut(target.addr);
                if node.set_removed().is_err() {
                    return None;
                }
                let height = node.height();
                let _ = node.tag_levels(1);
                proof {
                    assert(Node::<K, V>::top_tagged(
                        s1.mem.node(target.addr).levels@,
                        height as int,
                    ).is_none()) by {
                        s1.mem.lemma_untagged(target.addr, height as int);
                    }
                    s1.mem.lemma_relabelled_intro(self.mem, target.addr, 1);
                    self.lemma_target_aimed(s1, *key, search);
                }
                let ghost s2 = *self;
                proof {
                    s2.lemma_aimed_fresh(target.addr, search.prev@, search.pos@, height as int);
                }
                // The predecessors are those that the search has just recorded, so
                // every swap of the unlinking goes through.
                let unlinked = self.unlink(&target, height, &search.prev);
                proof {
                    assert(unlinked.is_ok());
                }
                let ghost s3 = *self;
                self.garbage.release_all();
                proof {
                    s1.lemma_helped_kept(*old(self));
                    s1.lemma_kept_descends(*old(self), NULL);
                    s2.lemma_changed_descends(s1, target.addr, NULL);
                    s2.lemma_descends_trans(s1, *old(self), NULL);
                    s3.lemma_kept_descends(s2, NULL);
                    s3.lemma_descends_trans(s2, *old(self), NULL);
                    assert(self.descends(*old(self), NULL));
                    old(self).mem.lemma_live_addrs();
                    self.lemma_descends_marks(*old(self), NULL);
                    s3.lemma_kept_view(s2);
                    s3.lemma_kept_node(s2, target.addr);
                    s3.lemma_kept_unmarked(s2);
                    s3.lemma_clean_unlinked(s2, s1, target.addr);
                    self.lemma_unguard(s3);
                    assert(self.garbage.holds(target.addr) && self.mem.live(target.addr)
                        && self.mem.key(target.addr) == *key && self.mem.node(
                        target.addr,
                    ).spec_refs() == 0);
                }
                Some(Entry { node: self.mem.node_ref(target.addr) })
            },
            None => {
                let ghost s3 = *self;
                self.garbage.release_all();
                proof {
                    self.lemma_unguard(s3);
                    self.lemma_helped_mem(s3, *old(self));
                    self.lemma_helped_nodes(*old(self));
                    assert(old(self).view().remove(*key) =~= old(self).view());
                    self.lemma_helped_kept(*old(self));
                    self.lemma_kept_descends(*old(self), NULL);
                    old(self).mem.lemma_live_addrs();
                    self.lemma_descends_marks(*old(self), NULL);
                }
                None
            },
        }
    }

    /// The state in which a new node is published: the search has found no
    /// entry with the key, the node has been allocated and the greatest
    /// height covers it. The node is placed, and the map is what it was.
    pub(crate) proof fn lemma_candidate(self, s4: Self, x: usize, key: K, r: SearchResult)
        requires
            total_order::<K>(),
            s4.inv(),
            s4.mem.complete(),
            s4.found(key, false, r),
            r.target.is_none(),
            s4.mem.has_room(),
            s4.mem.grown(self.mem, x),
            x != HEAD_ADDR,
            self.mem.node(x).key == key,
            1 <= self.mem.node(x).spec_height() <= HEIGHT,
            self.mem.node(x).spec_refs() == 0,
            !self.mem.node(x).spec_removed(),
            self.mem.node(x).levels@ == Seq::new(
                self.mem.node(x).spec_height() as nat,
                |i: int| (NULL, 0usize),
            ),
            s4.state.max_height <= self.state.max_height <= HEIGHT,
            self.mem.node(x).spec_height() <= self.state.max_height,
            self.garbage.retired@ == s4.garbage.retired@,
        ensures
            self.inv(),
            self.mem.complete(),
            self.placed(x, r.prev@, r.pos@, 0),
            self.view() == s4.view(),
            self.live_count() == s4.live_count(),
            !self.has_key(key),
            self.shadowed(key) == s4.shadowed(key),
            self.mem.nodes@.len() == s4.mem.nodes@.len() + 1,
            forall|a: usize| #[trigger] s4.mem.live(a) ==> self.mem.live(a) && self.mem.node(a)
                == s4.mem.node(a),
            s4.unmarked() ==> self.unmarked(),
            s4.clean() ==> self.clean(),
    {
        if s4.clean() {
            s4.mem.lemma_live_addrs();
            self.mem.lemma_live_addrs();
            assert forall|i: int| 0 <= i < self.mem.chain(0).len() implies self.mem.tag(
                #[trigger] self.mem.chain(0)[i],
                0,
            ) == 0 by {
                let a = self.mem.chain(0)[i];
                assert(s4.mem.chain(0)[i] == a);
                s4.lemma_elem(0, i);
                assert(self.mem.node(a) == s4.mem.node(a));
                assert(self.mem.tower(a) == s4.mem.tower(a));
            }
        }
        if s4.unmarked() {
            s4.mem.lemma_live_addrs();
            self.mem.lemma_live_addrs();
            assert forall|i: int|
                0 <= i < self.mem.chain(0).len() && self.mem.node(
                    #[trigger] self.mem.chain(0)[i],
                ).spec_removed() implies self.mem.tag(self.mem.chain(0)[i], 0) == 1 by {
                let a = self.mem.chain(0)[i];
                assert(s4.mem.chain(0)[i] == a);
                s4.lemma_elem(0, i);
                assert(self.mem.node(a) == s4.mem.node(a));
                assert(self.mem.tower(a) == s4.mem.tower(a));
            }
        }
        s4.lemma_found_target(key, r);
        reveal(SkipList::inv);
        reveal(SkipList::found);
        reveal(SkipList::placed);
        s4.mem.lemma_live_addrs();
        self.mem.lemma_live_addrs();
        s4.mem.lemma_grow(self.mem, x);
        assert forall|a: usize| #[trigger] s4.mem.live(a) implies self.mem.live(a) && self.mem.node(
            a,
        ) == s4.mem.node(a) by {}
        assert forall|a: usize| #[trigger] s4.mem.live(a) implies self.mem.tower(a) == s4.mem.tower(
            a,
        ) by {}
        assert forall|k: int| self.state.max_height <= k < HEIGHT implies (
        #[trigger] self.mem.chain(k)).len() == 0 by {
            assert(s4.mem.chain(k).len() == 0);
        }
        assert forall|m: int| 0 <= m < self.garbage.retired@.len() implies self.retired_ok(
            #[trigger] self.garbage.retired@[m],
        ) by {
            let a = s4.garbage.retired@[m];
            assert(s4.retired_ok(a));
        }
        assert forall|a: usize| #[trigger] self.mem.live(a) implies self.mem.tower_complete(a) by {
            if a != x {
                assert(s4.mem.live(a));
                assert(s4.mem.tower_complete(a));
            }
        }
        assert forall|k: int| 0 <= k < HEIGHT implies !(#[trigger] self.mem.linked(x, k)) by {
            assert(self.mem.chain(k) == s4.mem.chain(k));
            if s4.mem.linked(x, k) {
                assert(s4.mem.chain_ok(k));
                let i = choose|i: int| 0 <= i < s4.mem.chain(k).len() && s4.mem.chain(k)[i] == x;
                assert(s4.mem.live(s4.mem.chain(k)[i]));
            }
        }
        assert(self.mem.tower(x) == self.mem.node(x).levels@);
        assert forall|l: int| 0 <= l < self.mem.node(x).spec_height() implies self.mem.found_at(
            self.mem.key(x),
            l,
            #[trigger] r.pos@[l],
            r.prev@[l].0.addr,
            addr_or_null(r.prev@[l].1),
        ) by {
            assert(s4.mem.found_at(key, l, r.pos@[l], r.prev@[l].0.addr, addr_or_null(r.prev@[l].1)));
            assert(self.mem.chain(l) == s4.mem.chain(l));
            if r.pos@[l] > 0 {
                s4.lemma_elem(l, r.pos@[l] - 1);
            }
            if r.pos@[l] < s4.mem.chain(l).len() {
                s4.lemma_elem(l, r.pos@[l]);
            }
        }
        assert forall|a: usize| self.present(a) <==> s4.present(a) by {
            assert(self.mem.chain(0) == s4.mem.chain(0));
            if s4.mem.linked(a, 0) {
                s4.lemma_present(a);
            }
        }
        assert forall|a: usize| s4.present(a) implies self.mem.key(a) == s4.mem.key(a)
            && self.mem.node(a).val == s4.mem.node(a).val by {
            s4.lemma_present(a);
        }
        self.lemma_view_same(s4);
        assert(self.has_key(key) == s4.has_key(key)) by {
            assert(self.view().contains_key(key) == s4.view().contains_key(key));
        }
        assert(self.shadowed(key) == s4.shadowed(key)) by {
            assert(self.mem.chain(0) == s4.mem.chain(0));
            if s4.shadowed(key) {
                let a = choose|a: usize|
                    s4.mem.linked(a, 0) && s4.mem.node(a).spec_removed() && s4.mem.tag(a, 0) == 0
                        && s4.mem.key(a) == key;
                s4.lemma_present(a);
                assert(self.mem.linked(a, 0) && self.mem.node(a).spec_removed() && self.mem.tag(
                    a,
                    0,
                ) == 0 && self.mem.key(a) == key);
            }
            if self.shadowed(key) {
                let a = choose|a: usize|
                    self.mem.linked(a, 0) && self.mem.node(a).spec_removed() && self.mem.tag(a, 0)
                        == 0 && self.mem.key(a) == key;
                assert(s4.mem.linked(a, 0));
                s4.lemma_present(a);
                assert(s4.mem.linked(a, 0) && s4.mem.node(a).spec_removed() && s4.mem.tag(a, 0)
                    == 0 && s4.mem.key(a) == key);
            }
        }
    }

    /// A node that is placed can be published through the recorded pairs,
    /// and none of them is out of date.
    pub(crate) proof fn lemma_placed_ready(
        self,
        x: usize,
        prev: Seq<(NodeRef, Option<NodeRef>)>,
        pos: Seq<int>,
    )
        requires
            self.inv(),
            self.placed(x, prev, pos, 0),
        ensures
            prev.len() == HEIGHT,
            self.mem.live(x),
            !self.mem.node(x).spec_removed(),
            self.mem.node(x).spec_refs() == 0,
            self.mem.node(x).spec_height() <= self.state.max_height,
            forall|l: int|
                0 <= l < self.mem.node(x).spec_height() ==> self.pair_ok(x, #[trigger] prev[l], l),
            forall|l: int|
                0 <= l < self.mem.node(x).spec_height() ==> !(#[trigger] self.outdated(prev, l)),
    {
        reveal(SkipList::placed);
        self.lemma_max_height();
        assert forall|l: int| 0 <= l < self.mem.node(x).spec_height() implies self.pair_ok(
            x,
            #[trigger] prev[l],
            l,
        ) && !self.outdated(prev, l) by {
            let j = pos[l];
            assert(self.mem.found_at(
                self.mem.key(x),
                l,
                pos[l],
                prev[l].0.addr,
                addr_or_null(prev[l].1),
            ));
            self.lemma_pred(l, j);
            self.lemma_end(l, j);
            if j > 0 {
                self.lemma_elem(l, j - 1);
            }
            if j < self.mem.chain(l).len() {
                self.lemma_elem(l, j);
            }
        }
        assert forall|l: int| 0 <= l < self.mem.node(x).spec_height() implies !(
        #[trigger] self.outdated(prev, l)) by {
            assert(self.pair_ok(x, prev[l], l) && !self.outdated(prev, l));
        }
    }

    /// What publishing has done to the map. Either no level took the node,
    /// because a node marked removed stands where its key belongs, and the
    /// map is what it was; or every level below its height took it, and the
    /// map has its key and value.
    pub(crate) proof fn lemma_published_view(
        self,
        s8: Self,
        x: usize,
        prev: Seq<(NodeRef, Option<NodeRef>)>,
        pos: Seq<int>,
    )
        requires
            total_order::<K>(),
            s8.inv(),
            s8.mem.complete(),
            s8.placed(x, prev, pos, 0),
            !s8.has_key(s8.mem.key(x)),
            self.inv(),
            self.published(s8, x),
            self.mem.tag(x, 0) == 0,
            self.mem.node(x).spec_refs() <= self.mem.node(x).spec_height(),
            self.mem.node(x).spec_refs() < self.mem.node(x).spec_height() ==> s8.blocked(
                x,
                prev,
                self.mem.node(x).spec_refs() as int,
            ),
        ensures
            self.mem.node(x).spec_refs() == 0 || self.mem.node(x).spec_refs() == self.mem.node(
                x,
            ).spec_height(),
            self.mem.node(x).spec_refs() == 0 <==> s8.shadowed(s8.mem.key(x)),
            self.mem.complete(),
            self.mem.live(x),
            self.mem.tag(x, 0) == 0,
            self.mem.key(x) == s8.mem.key(x),
            self.mem.node(x).val == s8.mem.node(x).val,
            self.mem.node(x).spec_refs() == 0 ==> self.view() == s8.view() && self.live_count()
                == s8.live_count(),
            self.mem.node(x).spec_refs() != 0 ==> self.view() == s8.view().insert(
                s8.mem.key(x),
                s8.mem.node(x).val,
            ) && self.live_count() == s8.live_count() + 1,
            self.state == s8.state,
            self.mem.nodes@.len() == s8.mem.nodes@.len(),
            self.garbage.retired@ == s8.garbage.retired@,
            forall|a: usize|
                #![trigger self.mem.node(a)]
                s8.mem.live(a) ==> self.mem.live(a) && self.mem.key(a) == s8.mem.key(a)
                    && self.mem.node(a).val == s8.mem.node(a).val,
            s8.unmarked() ==> self.unmarked(),
            s8.clean() ==> self.clean(),
            self.mem.node(x).spec_refs() != 0 ==> self.present(x),
            self.mem.node(x).spec_height() == s8.mem.node(x).spec_height(),
    {
        assert(s8.mem.live(x) && !s8.mem.node(x).spec_removed()) by {
            reveal(SkipList::placed);
        }
        self.lemma_published_unmarked(s8, x);
        self.lemma_published_clean(s8, x);
        let b = self.mem.node(x).spec_refs() as int;
        let h = self.mem.node(x).spec_height() as int;
        let kx = s8.mem.key(x);
        reveal(SkipList::placed);
        reveal(SkipList::published);
        reveal(SkipList::inv);
        s8.mem.lemma_live_addrs();
        assert(self.mem.node_ok(x));
        assert(s8.mem.node_ok(x));
        assert(!s8.mem.linked(x, 0));
        assert(self.mem.node_same_but_refs(s8.mem, x));
        assert forall|a: usize|
            #![trigger self.mem.node(a)]
            s8.mem.live(a) implies self.mem.live(a) && self.mem.key(a) == s8.mem.key(a)
            && self.mem.node(a).val == s8.mem.node(a).val by {
            if a != x {
                assert(self.mem.node_same(s8.mem, a));
            }
        }
        if b < h {
            let n = addr_or_null(prev[b].1);
            assert(s8.mem.found_at(s8.mem.key(x), b, pos[b], prev[b].0.addr, n));
            s8.lemma_end(b, pos[b]);
            s8.lemma_elem(b, pos[b]);
            lemma_lt_total(s8.mem.key(x), s8.mem.key(n));
            assert(s8.mem.key(n) == s8.mem.key(x));
            assert(!s8.mem.linked(x, b));
            assert(n != x);
            assert(s8.mem.node_ok(n));
            assert(s8.mem.linked(n, 0));
            assert(self.mem.linked(n, 0));
            assert(self.mem.node_same(s8.mem, n));
            assert(!self.mem.linked(x, b));
            if b > 0 {
                assert(self.mem.linked(x, 0));
                self.lemma_unique(n, x);
            }
            assert(s8.mem.linked(n, 0));
            s8.lemma_present(n);
            assert(self.mem.node_same(s8.mem, n));
            assert(s8.mem.key(n) == kx);
            if !s8.mem.node(n).spec_removed() {
                assert(s8.present(n));
            }
            assert(s8.shadowed(kx));
        }
        if b == h {
            assert(self.mem.linked(x, 0));
            if s8.shadowed(kx) {
                let m = choose|m: usize|
                    s8.mem.linked(m, 0) && s8.mem.node(m).spec_removed() && s8.mem.tag(m, 0) == 0
                        && s8.mem.key(m) == kx;
                s8.lemma_present(m);
                assert(self.mem.linked(m, 0));
                assert(self.mem.node_same(s8.mem, m));
                self.lemma_unique(m, x);
            }
        }
        assert forall|a: usize| #[trigger] self.mem.live(a) implies self.mem.tower_complete(a) by {
            if a != x {
                assert(s8.mem.live(a));
                assert(s8.mem.tower_complete(a));
                assert(self.mem.node_same(s8.mem, a));
                assert(s8.mem.node_ok(a));
            }
        }
        assert forall|a: usize| s8.present(a) implies self.mem.key(a) == s8.mem.key(a)
            && self.mem.node(a).val == s8.mem.node(a).val by {
            s8.lemma_present(a);
        }
        if b == 0 {
            assert forall|a: usize| self.present(a) <==> s8.present(a) by {
                if s8.mem.linked(a, 0) {
                    s8.lemma_present(a);
                    assert(self.mem.node_same(s8.mem, a));
                }
                if self.mem.linked(a, 0) {
                    assert(a != x);
                    assert(s8.mem.linked(a, 0));
                    s8.lemma_present(a);
                    assert(self.mem.node_same(s8.mem, a));
                }
            }
            self.lemma_view_same(s8);
        } else {
            assert forall|a: usize| self.present(a) <==> s8.present(a) || a == x by {
                if s8.mem.linked(a, 0) {
                    s8.lemma_present(a);
                    assert(self.mem.node_same(s8.mem, a));
                }
                if self.mem.linked(a, 0) && a != x {
                    assert(s8.mem.linked(a, 0));
                    s8.lemma_present(a);
                    assert(self.mem.node_same(s8.mem, a));
                }
            }
            self.lemma_view_add(s8, x);
        }
    }

    /// What an attempt to publish the node at `x` has come to, `s8` being
    /// the list before it. Either no level holds the node, because a node
    /// that is marked removed and carries no tag holds its key, and the map
    /// is what it was; or every level below its height holds it, and the
    /// map has its key and value. Every tower is fully published or not at
    /// all, no node has gone, and keys and values are what they were.
    #[verifier::opaque]
    pub open(crate) spec fn tried(self, s8: Self, x: usize) -> bool {
        &&& (self.mem.node(x).spec_refs() == 0 || self.mem.node(x).spec_refs() == self.mem.node(
            x,
        ).spec_height())
        &&& (self.mem.node(x).spec_refs() == 0 <==> s8.shadowed(s8.mem.key(x)))
        &&& (self.mem.node(x).spec_refs() == 0 ==> self.shadowed(s8.mem.key(x)))
        &&& self.mem.complete()
        &&& self.mem.live(x)
        &&& self.mem.tag(x, 0) == 0
        &&& self.mem.key(x) == s8.mem.key(x)
        &&& self.mem.node(x).val == s8.mem.node(x).val
        &&& self.mem.node(x).spec_height() == s8.mem.node(x).spec_height()
        &&& (self.mem.node(x).spec_refs() == 0 ==> self.view() == s8.view() && self.live_count()
            == s8.live_count())
        &&& (self.mem.node(x).spec_refs() != 0 ==> self.view() == s8.view().insert(
            s8.mem.key(x),
            s8.mem.node(x).val,
        ) && self.live_count() == s8.live_count() + 1 && self.present(x))
        &&& self.state == s8.state
        &&& self.mem.nodes@.len() == s8.mem.nodes@.len()
        &&& (forall|a: usize|
            #![trigger self.mem.node(a)]
            #![trigger s8.mem.live(a)]
            s8.mem.live(a) ==> self.mem.live(a) && self.mem.key(a) == s8.mem.key(a)
                && self.mem.node(a).val == s8.mem.node(a).val)
        &&& (forall|a: usize|
            #![trigger self.mem.live(a)]
            self.mem.live(a) ==> s8.mem.live(a) && self.mem.node(a).spec_height() == s8.mem.node(
                a,
            ).spec_height() && self.mem.node(a).spec_removed() == s8.mem.node(a).spec_removed())
        &&& (s8.unmarked() ==> self.unmarked())
        &&& (s8.clean() ==> self.clean())
    }

    /// An attempt to publish descends.
    pub(crate) proof fn lemma_tried_descends(self, s8: Self, x: usize)
        requires
            self.tried(s8, x),
        ensures
            self.descends(s8, NULL),
    {
        reveal(SkipList::tried);
        assert forall|a: usize| #![trigger self.mem.live(a)] a != NULL && self.mem.live(a) implies
            s8.mem.live(a) && self.mem.key(a) == s8.mem.key(a) && self.mem.node(a).val
            == s8.mem.node(a).val && self.mem.node(a).spec_height() == s8.mem.node(
            a,
        ).spec_height() && (s8.mem.node(a).spec_removed() ==> self.mem.node(a).spec_removed()) by {
            assert(s8.mem.live(a));
        }
    }

    /// What publishing through the pairs of the search comes to.
    pub(crate) proof fn lemma_tried(
        self,
        s8: Self,
        x: usize,
        prev: Seq<(NodeRef, Option<NodeRef>)>,
        pos: Seq<int>,
    )
        requires
            total_order::<K>(),
            s8.inv(),
            s8.mem.complete(),
            s8.placed(x, prev, pos, 0),
            !s8.has_key(s8.mem.key(x)),
            self.inv(),
            self.published(s8, x),
            self.mem.tag(x, 0) == 0,
            self.mem.node(x).spec_refs() <= self.mem.node(x).spec_height(),
            self.mem.node(x).spec_refs() < self.mem.node(x).spec_height() ==> s8.blocked(
                x,
                prev,
                self.mem.node(x).spec_refs() as int,
            ),
        ensures
            self.tried(s8, x),
    {
        reveal(SkipList::tried);
        self.lemma_published_view(s8, x, prev, pos);
        let kx = s8.mem.key(x);
        if s8.shadowed(kx) {
            let m = choose|m: usize|
                s8.mem.linked(m, 0) && s8.mem.node(m).spec_removed() && s8.mem.tag(m, 0) == 0
                    && s8.mem.key(m) == kx;
            reveal(SkipList::published);
            reveal(SkipList::placed);
            reveal(SkipList::inv);
            s8.lemma_present(m);
            s8.mem.lemma_live_addr(m);
            assert(s8.mem.node_ok(m));
            assert(m != x);
            assert(self.mem.linked(m, 0));
            assert(self.mem.node_same(s8.mem, m));
            assert(self.mem.tag(m, 0) == s8.mem.tag(m, 0));
        }
        assert forall|a: usize|
            #![trigger self.mem.node(a)]
            #![trigger s8.mem.live(a)]
            s8.mem.live(a) implies self.mem.live(a) && self.mem.key(a) == s8.mem.key(a)
            && self.mem.node(a).val == s8.mem.node(a).val by {
            let n = self.mem.node(a);
        }
        assert forall|a: usize| #![trigger self.mem.live(a)] self.mem.live(a) implies s8.mem.live(
            a,
        ) && self.mem.node(a).spec_height() == s8.mem.node(a).spec_height() && self.mem.node(
            a,
        ).spec_removed() == s8.mem.node(a).spec_removed() by {
            reveal(SkipList::published);
            assert(s8.mem.live(a));
            if a != x {
                assert(self.mem.node_same(s8.mem, a));
            } else {
                assert(self.mem.node_same_but_refs(s8.mem, x));
            }
        }
    }

    /// A search that helps leaves an attempt that linked nothing what it
    /// was.
    pub(crate) proof fn lemma_tried_helped(self, mid: Self, s8: Self, x: usize)
        requires
            total_order::<K>(),
            mid.inv(),
            mid.tried(s8, x),
            mid.mem.node(x).spec_refs() == 0,
            self.inv(),
            self.helped(mid),
        ensures
            self.tried(s8, x),
            self.mem.node(x).spec_refs() == 0,
    {
        reveal(SkipList::tried);
        self.lemma_helped_kept(mid);
        self.lemma_kept_view(mid);
        self.lemma_kept_unmarked(mid);
        self.lemma_kept_node(mid, x);
        self.lemma_shadow_kept(mid, s8.mem.key(x));
        assert forall|a: usize|
            #![trigger self.mem.node(a)]
            #![trigger s8.mem.live(a)]
            s8.mem.live(a) implies self.mem.live(a) && self.mem.key(a) == s8.mem.key(a)
            && self.mem.node(a).val == s8.mem.node(a).val by {
            let n = mid.mem.node(a);
            assert(mid.mem.live(a));
            assert(n.val == s8.mem.node(a).val);
            assert(mid.mem.key(a) == s8.mem.key(a));
            self.lemma_helped_node(mid, a);
        }
        assert forall|a: usize| #![trigger self.mem.live(a)] self.mem.live(a) implies s8.mem.live(
            a,
        ) && self.mem.node(a).spec_height() == s8.mem.node(a).spec_height() && self.mem.node(
            a,
        ).spec_removed() == s8.mem.node(a).spec_removed() by {
            self.lemma_helped_node(mid, a);
            assert(mid.mem.live(a));
        }
        self.lemma_helped_node(mid, x);
    }

    /// Where a node that is marked removed and carries no tag holds the key
    /// of the node at `x`, a search for that key records it as the
    /// successor at level 0, and the level is blocked.
    pub(crate) proof fn lemma_shadow_blocks(self, x: usize, r: SearchResult)
        requires
            total_order::<K>(),
            self.inv(),
            self.found(self.mem.key(x), false, r),
            self.shadowed(self.mem.key(x)),
        ensures
            r.prev@.len() == HEIGHT,
            addr_or_null(r.prev@[0].1) != NULL,
            self.mem.live(addr_or_null(r.prev@[0].1)),
            self.blocked(x, r.prev@, 0),
    {
        reveal(SkipList::found);
        let key = self.mem.key(x);
        let j = r.pos@[0];
        let c = self.mem.chain(0);
        assert(self.mem.found_at(key, 0, j, r.prev@[0].0.addr, addr_or_null(r.prev@[0].1)));
        let m = choose|m: usize|
            self.mem.linked(m, 0) && self.mem.node(m).spec_removed() && self.mem.tag(m, 0) == 0
                && self.mem.key(m) == key;
        let i = choose|i: int| 0 <= i < c.len() && c[i] == m;
        self.lemma_at_bracket(key, 0, j, i);
        self.lemma_elem(0, j);
        lemma_lt_total(key, key);
        if lt(key, key) {
            lemma_lt_irrefl(key, key);
        }
    }

    /// Publishes the node through the pairs of the search that placed it.
    /// A publish that fails is taken up again from the level that failed,
    /// with the pairs of a fresh search. The publishing ends when the tower
    /// stands, when the fresh search has the node itself as its target, and
    /// when the fresh pairs are blocked at that level: a node that is marked
    /// removed and carries no tag holds the key then, and nothing can be
    /// published in front of it.
    pub(crate) fn publish(
        &mut self,
        new_node: &NodeRef,
        pairs: &Vec<(NodeRef, Option<NodeRef>)>,
        Ghost(pos): Ghost<Seq<int>>,
    )
        requires
            total_order::<K>(),
            old(self).inv(),
            old(self).mem.complete(),
            old(self).placed(new_node.addr, pairs@, pos, 0),
            !old(self).has_key(old(self).mem.key(new_node.addr)),
        ensures
            final(self).inv(),
            final(self).tried(*old(self), new_node.addr),
    {
        let ghost s8 = *self;
        let ghost x = new_node.addr;
        proof {
            s8.lemma_placed_ready(x, pairs@, pos);
        }
        let mut outcome = self.link_nodes(new_node, pairs, 0);
        proof {
            let stop = self.mem.node(x).spec_refs() as int;
            if stop < s8.mem.node(x).spec_height() {
                assert(!s8.outdated(pairs@, stop));
            }
            assert(self.mem.node(x).spec_height() == s8.mem.node(x).spec_height()) by {
                reveal(SkipList::published);
            }
            self.lemma_tried(s8, x, pairs@, pos);
            reveal(SkipList::tried);
        }
        let mut settled = false;
        while outcome.is_err() && !settled
            invariant
                total_order::<K>(),
                x == new_node.addr,
                self.inv(),
                self.tried(s8, x),
                self.mem.key(x) == s8.mem.key(x),
                !s8.has_key(s8.mem.key(x)),
                outcome.is_err() ==> outcome == Err::<(), usize>(0) && self.mem.node(x).spec_refs()
                    == 0,
            decreases
                    (if outcome.is_err() && !settled {
                        1int
                    } else {
                        0int
                    }),
        {
            let level = match outcome {
                Err(level) => level,
                Ok(_) => 0,
            };
            let ghost mid = *self;
            proof {
                reveal(SkipList::tried);
            }
            let again = self.find_probe(&Probe::Node(new_node.addr), false);
            proof {
                self.lemma_tried_helped(mid, s8, x);
                assert(self.shadowed(self.mem.key(x)) && !self.has_key(self.mem.key(x))) by {
                    reveal(SkipList::tried);
                    assert(!self.view().contains_key(s8.mem.key(x)));
                }
                self.lemma_found_target(self.mem.key(x), again);
                self.lemma_shadow_blocks(x, again);
            }
            let own = match &again.target {
                Some(target) => target.addr == new_node.addr,
                None => false,
            };
            if own || self.blocked_at(new_node, &again.prev, level) {
                settled = true;
            } else {
                outcome = self.link_nodes(new_node, &again.prev, level);
            }
        }
    }

    /// Publishing a node that is not marked leaves a list unmarked.
    pub(crate) proof fn lemma_published_unmarked(self, s8: Self, x: usize)
        requires
            s8.inv(),
            self.inv(),
            self.published(s8, x),
            s8.mem.live(x),
            !s8.mem.node(x).spec_removed(),
        ensures
            s8.unmarked() ==> self.unmarked(),
    {
        reveal(SkipList::published);
        if s8.unmarked() {
            s8.mem.lemma_live_addrs();
            assert forall|i: int|
                0 <= i < self.mem.chain(0).len() && self.mem.node(
                    #[trigger] self.mem.chain(0)[i],
                ).spec_removed() implies self.mem.tag(self.mem.chain(0)[i], 0) == 1 by {
                let a = self.mem.chain(0)[i];
                self.lemma_elem(0, i);
                if a == x {
                    assert(self.mem.node_same_but_refs(s8.mem, x));
                } else {
                    assert(s8.mem.linked(a, 0));
                    let j = choose|j: int|
                        0 <= j < s8.mem.chain(0).len() && s8.mem.chain(0)[j] == a;
                    assert(s8.mem.chain(0)[j] == a);
                    s8.lemma_elem(0, j);
                    assert(self.mem.node_same(s8.mem, a));
                    reveal(SkipList::inv);
                    assert(s8.mem.node_ok(a));
                }
            }
        }
    }

    /// Publishing a node without a tag leaves a list clean.
    pub(crate) proof fn lemma_published_clean(self, s8: Self, x: usize)
        requires
            s8.inv(),
            self.inv(),
            self.published(s8, x),
            s8.mem.live(x),
            self.mem.tag(x, 0) == 0,
        ensures
            s8.clean() ==> self.clean(),
    {
        reveal(SkipList::published);
        if s8.clean() {
            s8.mem.lemma_live_addrs();
            assert forall|i: int| 0 <= i < self.mem.chain(0).len() implies self.mem.tag(
                #[trigger] self.mem.chain(0)[i],
                0,
            ) == 0 by {
                let a = self.mem.chain(0)[i];
                self.lemma_elem(0, i);
                if a != x {
                    assert(s8.mem.linked(a, 0));
                    let j = choose|j: int|
                        0 <= j < s8.mem.chain(0).len() && s8.mem.chain(0)[j] == a;
                    assert(s8.mem.chain(0)[j] == a);
                    s8.lemma_elem(0, j);
                    assert(self.mem.node_same(s8.mem, a));
                    reveal(SkipList::inv);
                    assert(s8.mem.node_ok(a));
                }
            }
        }
    }

    /// Freeing a node that was never published changes neither structure
    /// nor map.
    pub(crate) proof fn lemma_free_orphan(self, s9: Self, x: usize)
        requires
            total_order::<K>(),
            s9.inv(),
            s9.mem.complete(),
            s9.mem.live(x),
            s9.mem.tag(x, 0) == 0,
            s9.mem.node(x).spec_refs() == 0,
            s9.mem.shrunk(self.mem, x),
            self.state.max_height == s9.state.max_height,
            self.garbage.retired@ == s9.garbage.retired@,
        ensures
            self.inv(),
            self.mem.complete(),
            self.view() == s9.view(),
            self.live_count() == s9.live_count(),
            self.mem.nodes@.len() == s9.mem.nodes@.len(),
            forall|a: usize|
                #![trigger self.mem.node(a)]
                s9.mem.live(a) && a != x ==> self.mem.live(a) && self.mem.node(a) == s9.mem.node(a),
            s9.unmarked() ==> self.unmarked(),
            s9.clean() ==> self.clean(),
    {
        if s9.clean() {
            s9.mem.lemma_live_addrs();
            self.mem.lemma_live_addrs();
            assert forall|i: int| 0 <= i < self.mem.chain(0).len() implies self.mem.tag(
                #[trigger] self.mem.chain(0)[i],
                0,
            ) == 0 by {
                let a = self.mem.chain(0)[i];
                assert(s9.mem.chain(0)[i] == a);
                s9.lemma_elem(0, i);
                reveal(SkipList::inv);
                assert(s9.mem.node_ok(x));
                assert(a != x);
                assert(self.mem.node(a) == s9.mem.node(a));
                assert(self.mem.tower(a) == s9.mem.tower(a));
            }
        }
        if s9.unmarked() {
            s9.mem.lemma_live_addrs();
            self.mem.lemma_live_addrs();
            assert forall|i: int|
                0 <= i < self.mem.chain(0).len() && self.mem.node(
                    #[trigger] self.mem.chain(0)[i],
                ).spec_removed() implies self.mem.tag(self.mem.chain(0)[i], 0) == 1 by {
                let a = self.mem.chain(0)[i];
                assert(s9.mem.chain(0)[i] == a);
                s9.lemma_elem(0, i);
                reveal(SkipList::inv);
                assert(s9.mem.node_ok(x));
                assert(a != x);
                assert(self.mem.node(a) == s9.mem.node(a));
                assert(self.mem.tower(a) == s9.mem.tower(a));
            }
        }
        reveal(SkipList::inv);
        s9.mem.lemma_live_addrs();
        self.mem.lemma_live_addrs();
        s9.mem.lemma_shrink(self.mem, x);
        assert(s9.mem.node_ok(x));
        assert forall|k: int| self.state.max_height <= k < HEIGHT implies (
        #[trigger] self.mem.chain(k)).len() == 0 by {
            assert(s9.mem.chain(k).len() == 0);
        }
        assert forall|m: int| 0 <= m < self.garbage.retired@.len() implies self.retired_ok(
            #[trigger] self.garbage.retired@[m],
        ) by {
            let a = s9.garbage.retired@[m];
            assert(s9.retired_ok(a));
            assert(a != x);
            assert(self.mem.node(a) == s9.mem.node(a));
            assert(self.mem.tower(a) == s9.mem.tower(a));
        }
        assert forall|a: usize| #[trigger] self.mem.live(a) implies self.mem.tower_complete(a) by {
            assert(s9.mem.live(a));
            assert(s9.mem.tower_complete(a));
            assert(self.mem.node(a) == s9.mem.node(a));
            assert(self.mem.tower(a) == s9.mem.tower(a));
        }
        assert forall|a: usize| self.present(a) <==> s9.present(a) by {
            assert(self.mem.chain(0) == s9.mem.chain(0));
            if s9.mem.linked(a, 0) {
                s9.lemma_present(a);
                assert(a != x);
                assert(self.mem.node(a) == s9.mem.node(a));
            }
        }
        assert forall|a: usize| s9.present(a) implies self.mem.key(a) == s9.mem.key(a)
            && self.mem.node(a).val == s9.mem.node(a).val by {
            s9.lemma_present(a);
            assert(a != x);
            assert(self.mem.node(a) == s9.mem.node(a));
        }
        self.lemma_view_same(s9);
    }

    /// Inserts an entry and returns the entry that held the key before, if
    /// there was one.
    ///
    /// An entry with the same key is first removed as `remove` does. Then a
    /// node with a freshly drawn height is allocated, the length goes up by
    /// one, and the node is published level by level from the bottom.
    ///
    /// Where a node that is marked removed but not yet tagged holds the key
    /// at level 0, nothing is published: the new node is freed again and the
    /// length is what it was.
    pub fn insert<'a>(&'a mut self, key: K, val: V) -> (r: Option<Entry<'a, K, V>>)
        requires
            total_order::<K>(),
            old(self).wf(),
            old(self).has_room(),
        ensures
            final(self).wf(),
            r.is_some() <==> old(self).view().contains_key(key),
            r.is_some() ==> r.unwrap().spec_key() == key && r.unwrap().spec_val() == old(self).view()[key],
            !old(self).shadowed(key) ==> final(self).view() == old(self).view().insert(key, val),
            !old(self).shadowed(key) ==> final(self).spec_len() == if r.is_some() {
                old(self).spec_len()
            } else {
                (old(self).spec_len() + 1) as usize
            },
            !old(self).shadowed(key) ==> final(self).live_count() == if r.is_some() {
                old(self).live_count()
            } else {
                old(self).live_count() + 1
            },
            old(self).shadowed(key) ==> final(self).view() == old(self).view()
                && final(self).spec_len() == old(self).spec_len()
                && final(self).live_count() == old(self).live_count() && r.is_none(),
            final(self).max_height() >= old(self).max_height(),
            final(self).seed() == crate::height::xorshift(old(self).seed()),
            final(self).slots() == old(self).slots() + 1,
            old(self).clean() ==> final(self).clean(),
            !old(self).shadowed(key) ==> 1 <= final(self).height_of(key) <= HEIGHT,
            !old(self).shadowed(key) ==> final(self).height_of(key) <= crate::height::proposed_height(
                crate::height::xorshift(old(self).seed()),
            ),
            final(self).marks_stay(*old(self)),
            !old(self).shadowed(key) ==> final(self).height_of(key) <= old(self).populated() + 1,
            !old(self).shadowed(key) ==> final(self).height_of(key) <= final(self).max_height(),
            old(self).tagless() && !old(self).view().contains_key(key) && !old(self).shadowed(key)
                ==> final(self).height_of(key) == old(self).next_height(),
            old(self).counted() ==> final(self).counted(),
            old(self).unmarked() ==> final(self).unmarked(),
    {
        let mut search = self.find_probe(&Probe::Key(&key), false);
        let mut existing: Option<NodeRef> = None;
        proof {
            self.lemma_helped_kept(*old(self));
            self.lemma_kept_view(*old(self));
            self.lemma_kept_unmarked(*old(self));
            self.lemma_kept_node(*old(self), NULL);
            self.lemma_shadow_kept(*old(self), key);
            self.lemma_found_target(key, search);
            self.lemma_kept_thinned(*old(self), *old(self));
            self.lemma_kept_descends(*old(self), NULL);
        }
        loop
            invariant
                total_order::<K>(),
                old(self).wf(),
                old(self).has_room(),
                self.wf(),
                self.found(key, false, search),
                search.target.is_some() <==> self.has_key(key),
                self.mem.nodes@.len() == old(self).mem.nodes@.len(),
                self.state.max_height == old(self).state.max_height,
                self.state.seed == old(self).state.seed,
                old(self).clean() ==> self.clean(),
                old(self).tagless() && existing.is_none() ==> self.same_memory(*old(self)),
                old(self).unmarked() ==> self.unmarked(),
                self.shadowed(key) == old(self).shadowed(key),
                self.thinned(*old(self)),
                self.descends(*old(self), NULL),
                existing.is_none() ==> self.view() == old(self).view()
                    && self.state.len == old(self).state.len
                    && self.live_count() == old(self).live_count(),
                existing.is_some() ==> search.target.is_none() && old(self).has_key(key)
                    && self.view() == old(self).view().remove(key)
                        && self.state.len == old(self).state.len - 1
                        && self.live_count() == old(self).live_count() - 1
                    && self.mem.live(existing.unwrap().addr) && self.mem.key(existing.unwrap().addr)
                    == key && self.mem.node(existing.unwrap().addr).val == old(self).view()[key],
            ensures
                search.target.is_none(),
            decreases
                    (if search.target.is_some() {
                        1int
                    } else {
                        0int
                    }),
        {
            let ghost r0 = search;
            let ghost s1 = *self;
            let taken = search.target.take();
            proof {
                reveal(SkipList::found);
            }
            match taken {
                None => {
                    break;
                },
                Some(target) => {
                    proof {
                        s1.lemma_found_target(key, r0);
                        s1.lemma_holder(target.addr);
                        reveal(SkipList::inv);
                        assert(s1.mem.node_ok(target.addr));
                        s1.mem.lemma_live_addr(target.addr);
                        s1.mem.lemma_untagged(
                            target.addr,
                            s1.mem.node(target.addr).spec_height() as int,
                        );
                    }
                    let node = self.mem.node_mut(target.addr);
                    let height = node.height();
                    if node.try_remove_and_tag().is_ok() {
                        proof {
                            assert(Node::<K, V>::top_tagged(
                                s1.mem.node(target.addr).levels@,
                                height as int,
                            ).is_none()) by {
                                s1.mem.lemma_untagged(target.addr, height as int);
                            }
                            s1.mem.lemma_relabelled_intro(self.mem, target.addr, 1);
                            self.lemma_target_aimed(s1, key, r0);
                            self.lemma_shadow_marked(s1, key, target.addr);
                        }
                        let ghost s2 = *self;
                        proof {
                            s2.lemma_aimed_fresh(
                                target.addr,
                                search.prev@,
                                search.pos@,
                                height as int,
                            );
                        }
                        let _ = self.unlink(&target, height, &search.prev);
                        let ghost s3 = *self;
                        proof {
                            s3.lemma_kept_view(s2);
                            s3.lemma_kept_node(s2, target.addr);
                            s3.lemma_kept_unmarked(s2);
                            s3.lemma_clean_unlinked(s2, s1, target.addr);
                            s3.lemma_shadow_kept(s2, key);
                        }
                        search = self.find_probe(&Probe::Key(&key), false);
                        proof {
                            self.lemma_helped_kept(s3);
                            self.lemma_kept_view(s3);
                            self.lemma_kept_unmarked(s3);
                            self.lemma_kept_node(s3, NULL);
                            self.lemma_shadow_kept(s3, key);
                            self.lemma_found_target(key, search);
                            assert(!self.view().contains_key(key));
                            self.lemma_helped_live(s3, target.addr);
                            assert(s2.thinned(*old(self))) by {
                                assert(s1.mem.relabelled(s2.mem, target.addr, 1));
                                assert(s1.thinned(*old(self)));
                                assert forall|l: int|
                                    0 <= l < HEIGHT && (#[trigger] s2.mem.chain(l)).len()
                                        > 0 implies old(self).mem.chain(l).len() > 0 by {
                                    assert(s2.mem.chain(l) == s1.mem.chain(l));
                                }
                            }
                            s3.lemma_kept_thinned(s2, *old(self));
                            self.lemma_kept_thinned(s3, *old(self));
                            s2.lemma_changed_descends(s1, target.addr, NULL);
                            s2.lemma_descends_trans(s1, *old(self), NULL);
                            s3.lemma_kept_descends(s2, NULL);
                            s3.lemma_descends_trans(s2, *old(self), NULL);
                            self.lemma_helped_kept(s3);
                            self.lemma_kept_descends(s3, NULL);
                            self.lemma_descends_trans(s3, *old(self), NULL);
                        }
                        existing = Some(target);
                    }
                },
            }
        }
        let ghost s4 = *self;
        proof {
            self.lemma_can_draw();
        }
        // The new node, with a height of its own.
        let new_node_raw = Node::new_rand_height(key, val, self);
        let ghost s5 = *self;
        let ghost drawn = new_node_raw.spec_height();
        proof {
            Self::lemma_draws(s4, s5, drawn);
            vstd::std_specs::bits::axiom_u64_trailing_zeros(
                crate::height::xorshift(s4.state.seed),
            );
            s4.mem.lemma_capped(
                crate::height::proposed_height(crate::height::xorshift(s4.state.seed)) as int,
            );
            s4.lemma_capped_populated(
                crate::height::proposed_height(crate::height::xorshift(s4.state.seed)) as int,
            );
            s4.lemma_populated_thinned(*old(self), HEIGHT as int);
        }
        let addr = self.mem.allocate(new_node_raw);
        // The new node is protected for as long as it is being published.
        let new_node = self.protect_raw(addr);
        self.state.len = self.state.len + 1;
        let ghost s8 = *self;
        proof {
            s4.lemma_max_height();
            s8.lemma_candidate(s4, addr, key, search);
            if existing.is_some() {
                let t = existing.unwrap().addr;
                assert(s4.mem.live(t));
                assert(s8.mem.live(t) && s8.mem.node(t) == s4.mem.node(t));
                assert(t != addr);
            }
            s4.lemma_descends_but(*old(self), addr);
            s8.lemma_changed_descends(s4, addr, addr);
            s8.lemma_descends_trans(s4, *old(self), addr);
            assert(!old(self).mem.live(addr)) by {
                if old(self).mem.live(addr) {
                    old(self).mem.lemma_live_addr(addr);
                }
            }
        }
        self.publish(&new_node, &search.prev, Ghost(search.pos@));
        let ghost s9 = *self;
        proof {
            s9.lemma_tried_descends(s8, addr);
            s9.lemma_descends_but(s8, addr);
            s9.lemma_descends_trans(s8, *old(self), addr);
            reveal(SkipList::tried);
            if existing.is_some() {
                let t = existing.unwrap().addr;
                assert(s8.mem.live(t));
                let n9 = s9.mem.node(t);
                assert(s9.mem.live(t));
                assert(s9.mem.key(t) == s8.mem.key(t));
                assert(n9.val == s8.mem.node(t).val);
            }
        }
        if self.mem.node_ref(addr).refs() == 0 {
            // Nothing took the node: the insertion is taken back.
            self.mem.free(addr);
            self.state.len = self.state.len - 1;
            proof {
                self.lemma_free_orphan(s9, addr);
                if existing.is_some() {
                    let t = existing.unwrap().addr;
                    assert(self.mem.live(t) && self.mem.node(t) == s9.mem.node(t));
                }
            }
        }
        let ghost s10 = *self;
        self.garbage.release_all();
        proof {
            s10.lemma_changed_descends(s9, addr, addr);
            s10.lemma_descends_trans(s9, *old(self), addr);
            assert(self.descends(*old(self), addr));
            self.lemma_descends_marks(*old(self), addr);
            self.lemma_unguard(s10);
            reveal(SkipList::inv);
            old(self).lemma_shadow_absent(key);
            if !old(self).shadowed(key) {
                assert(s9.present(addr));
                assert(self.present(addr));
                self.lemma_holder(addr);
                assert(self.mem.node(addr).spec_height() == drawn);
            }
            if existing.is_some() {
                assert(old(self).view().remove(key).insert(key, val) =~= old(self).view().insert(
                    key,
                    val,
                ));
            }
        }
        match existing {
            Some(old_node) => Some(Entry { node: self.mem.node_ref(old_node.addr) }),
            None => None,
        }
    }

    /// What keeps the nodes without a tag keeps the marks.
    pub(crate) proof fn lemma_shadow_kept(self, old: Self, key: K)
        requires
            old.inv(),
            self.inv(),
            self.kept(old),
        ensures
            self.shadowed(key) == old.shadowed(key),
    {
        if old.shadowed(key) {
            let a = choose|a: usize|
                old.mem.linked(a, 0) && old.mem.node(a).spec_removed() && old.mem.tag(a, 0) == 0
                    && old.mem.key(a) == key;
            old.lemma_present(a);
            self.lemma_kept_node(old, a);
            assert(self.mem.linked(a, 0) && self.mem.node(a).spec_removed() && self.mem.tag(a, 0)
                == 0 && self.mem.key(a) == key);
        }
        if self.shadowed(key) {
            let a = choose|a: usize|
                self.mem.linked(a, 0) && self.mem.node(a).spec_removed() && self.mem.tag(a, 0) == 0
                    && self.mem.key(a) == key;
            self.lemma_present(a);
            self.lemma_kept_node(old, a);
            assert(old.mem.linked(a, 0) && old.mem.node(a).spec_removed() && old.mem.tag(a, 0) == 0
                && old.mem.key(a) == key);
        }
    }

    /// Marking and tagging an entry shadows no key.
    pub(crate) proof fn lemma_shadow_marked(self, s1: Self, key: K, t: usize)
        requires
            total_order::<K>(),
            s1.inv(),
            self.inv(),
            s1.present(t),
            s1.mem.key(t) == key,
            s1.mem.relabelled(self.mem, t, 1),
        ensures
            self.shadowed(key) == s1.shadowed(key),
            !s1.shadowed(key),
    {
        s1.mem.lemma_live_addrs();
        if s1.shadowed(key) {
            let a = choose|a: usize|
                s1.mem.linked(a, 0) && s1.mem.node(a).spec_removed() && s1.mem.tag(a, 0) == 0
                    && s1.mem.key(a) == key;
            s1.lemma_unique(a, t);
        }
        if self.shadowed(key) {
            let a = choose|a: usize|
                self.mem.linked(a, 0) && self.mem.node(a).spec_removed() && self.mem.tag(a, 0) == 0
                    && self.mem.key(a) == key;
            assert(self.mem.chain(0) == s1.mem.chain(0));
            s1.lemma_present(a);
            s1.lemma_present(t);
            assert(self.mem.tag(t, 0) == 1) by {
                reveal(SkipList::inv);
                assert(s1.mem.node_ok(t));
            }
            assert(a != t);
            assert(self.mem.node_same(s1.mem, a));
            reveal(SkipList::inv);
            assert(s1.mem.node_ok(a));
            s1.lemma_unique(a, t);
        }
    }

    /// A list that was clean is clean again once the node that was tagged
    /// has left every level.
    pub(crate) proof fn lemma_clean_unlinked(self, s2: Self, s1: Self, t: usize)
        requires
            s1.inv(),
            s2.inv(),
            self.inv(),
            s2.mem.chains@ == s1.mem.chains@,
            forall|a: usize|
                a != t && s1.mem.linked(a, 0) ==> #[trigger] s2.mem.tag(a, 0) == s1.mem.tag(a, 0),
            self.kept(s2),
            !self.mem.linked(t, 0),
        ensures
            s1.clean() ==> self.clean(),
    {
        if s1.clean() {
            assert forall|i: int| 0 <= i < self.mem.chain(0).len() implies self.mem.tag(
                #[trigger] self.mem.chain(0)[i],
                0,
            ) == 0 by {
                let a = self.mem.chain(0)[i];
                self.lemma_elem(0, i);
                self.lemma_kept_node(s2, a);
                assert(s2.mem.linked(a, 0));
                assert(s2.mem.chain(0) == s1.mem.chain(0));
                let j = choose|j: int| 0 <= j < s1.mem.chain(0).len() && s1.mem.chain(0)[j] == a;
                assert(s1.mem.chain(0)[j] == a);
                assert(s2.mem.tag(a, 0) == s1.mem.tag(a, 0));
            }
        }
    }

    /// A key that is shadowed is not in the map.
    pub(crate) proof fn lemma_shadow_absent(self, key: K)
        requires
            total_order::<K>(),
            self.inv(),
        ensures
            self.shadowed(key) ==> !self.has_key(key) && !self.view().contains_key(key),
    {
        if self.shadowed(key) && self.has_key(key) {
            let a = choose|a: usize|
                self.mem.linked(a, 0) && self.mem.node(a).spec_removed() && self.mem.tag(a, 0) == 0
                    && self.mem.key(a) == key;
            let b = self.holder(key);
            self.lemma_unique(a, b);
        }
    }

    /// Helping frees nothing.
    pub(crate) proof fn lemma_helped_live(self, old: Self, a: usize)
        requires
            old.inv(),
            self.helped(old),
            old.mem.live(a),
        ensures
            self.mem.live(a),
            self.mem.key(a) == old.mem.key(a),
            self.mem.node(a).val == old.mem.node(a).val,
    {
        self.lemma_helped_node(old, a);
    }
}

} // verus!
