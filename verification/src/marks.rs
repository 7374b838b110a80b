use vstd::prelude::*;
use crate::list::SkipList;
use crate::node::{Node, HEIGHT};
use crate::order::total_order;
use crate::reclaim::NodeRef;

verus! {

impl<K: Ord, V> SkipList<K, V> {
    /// What a change of marks on one node does to the list. The structure
    /// stays in order. The node is an entry afterwards exactly if level 0
    /// links it and it is not marked; all other entries stay. A key is
    /// shadowed afterwards exactly if it was, but for the key of the node:
    /// that one is shadowed exactly if level 0 links the node, and the node
    /// is marked and carries no tag.
    pub(crate) proof fn lemma_marks(self, old: Self, x: usize, tag: usize)
        requires
            total_order::<K>(),
            old.wf(),
            old.mem.live(x),
            old.mem.tag(x, 0) == 0,
            tag <= 1,
            tag == 1 ==> self.mem.node(x).spec_removed(),
            old.mem.relabelled(self.mem, x, tag),
            self.state == old.state,
            self.garbage == old.garbage,
            old.mem.linked(x, 0) && old.mem.node(x).spec_removed() && !self.mem.node(
                x,
            ).spec_removed() ==> old.live_count() < old.state.len,
        ensures
            self.wf(),
            self.same_links(old),
            self.present(x) <==> old.mem.linked(x, 0) && !self.mem.node(x).spec_removed(),
            old.present(x) && !self.present(x) ==> self.view() == old.view().remove(old.mem.key(x))
                && self.live_count() == old.live_count() - 1,
            !old.present(x) && self.present(x) ==> self.view() == old.view().insert(
                old.mem.key(x),
                old.mem.node(x).val,
            ) && self.live_count() == old.live_count() + 1,
            old.present(x) == self.present(x) ==> self.view() == old.view() && self.live_count()
                == old.live_count(),
    {
        reveal(SkipList::inv);
        old.mem.lemma_live_addrs();
        self.mem.lemma_live_addrs();
        old.mem.lemma_relabel(self.mem, x, tag);
        assert(old.mem.node_ok(x));
        assert forall|a: usize|
            #![trigger self.mem.node(a)]
            a != x && old.mem.live(a) implies self.mem.live(a) && self.mem.node(a).key
            == old.mem.node(a).key && self.mem.node(a).val == old.mem.node(a).val && self.mem.node(
            a,
        ).spec_height() == old.mem.node(a).spec_height() && self.mem.node(a).spec_removed()
            == old.mem.node(a).spec_removed() && self.mem.node(a).spec_refs() == old.mem.node(
            a,
        ).spec_refs() && self.mem.tag(a, 0) == old.mem.tag(a, 0) by {
            assert(self.mem.node_same(old.mem, a));
            assert(old.mem.node_ok(a));
        }
        assert forall|l: int| self.state.max_height <= l < HEIGHT implies (
        #[trigger] self.mem.chain(l)).len() == 0 by {
            assert(old.mem.chain(l).len() == 0);
        }
        assert forall|m: int| 0 <= m < self.garbage.retired@.len() implies self.retired_ok(
            #[trigger] self.garbage.retired@[m],
        ) by {
            let a = old.garbage.retired@[m];
            assert(old.retired_ok(a));
            assert(a != x);
            assert(self.mem.node_same(old.mem, a));
            assert(old.mem.node_ok(a));
        }
        assert(self.inv());
        assert forall|a: usize| #[trigger] self.mem.live(a) implies self.mem.tower_complete(a) by {
            assert(old.mem.live(a));
            assert(old.mem.tower_complete(a));
            if a != x {
                assert(self.mem.node_same(old.mem, a));
                assert(old.mem.node_ok(a));
            }
        }
        assert forall|a: usize| a != x implies (self.present(a) <==> old.present(a)) by {
            assert(self.mem.chain(0) == old.mem.chain(0));
            if old.mem.linked(a, 0) {
                old.lemma_present(a);
                assert(self.mem.node_same(old.mem, a));
            }
        }
        assert(self.mem.chain(0) == old.mem.chain(0));
        assert forall|a: usize| old.present(a) && a != x implies self.mem.key(a) == old.mem.key(a)
            && self.mem.node(a).val == old.mem.node(a).val by {
            old.lemma_present(a);
            assert(self.mem.node_same(old.mem, a));
        }
        if old.present(x) && !self.present(x) {
            self.lemma_view_drop(old, x);
        } else if !old.present(x) && self.present(x) {
            assert forall|a: usize| old.present(a) implies self.mem.key(a) == old.mem.key(a)
                && self.mem.node(a).val == old.mem.node(a).val by {}
            self.lemma_view_add(old, x);
        } else {
            assert forall|a: usize| old.present(a) implies self.mem.key(a) == old.mem.key(a)
                && self.mem.node(a).val == old.mem.node(a).val by {}
            self.lemma_view_same(old);
        }
    }

    /// What a change of marks on one node does to the shadows: a key is
    /// shadowed afterwards exactly if it was, but for the key of the node,
    /// which is shadowed exactly if level 0 links the node and the node is
    /// marked and carries no tag.
    pub(crate) proof fn lemma_marks_shadow(self, old: Self, x: usize, tag: usize)
        requires
            total_order::<K>(),
            old.inv(),
            old.mem.live(x),
            old.mem.relabelled(self.mem, x, tag),
        ensures
            forall|k: K|
                self.shadowed(k) <==> if old.mem.linked(x, 0) && k == old.mem.key(x) {
                    self.mem.node(x).spec_removed() && tag == 0
                } else {
                    old.shadowed(k)
                },
    {
        old.mem.lemma_live_addrs();
        assert(self.mem.chain(0) == old.mem.chain(0));
        assert forall|a: usize| a != x && old.mem.linked(a, 0) implies self.mem.node(
            a,
        ).spec_removed() == old.mem.node(a).spec_removed() && self.mem.tag(a, 0) == old.mem.tag(
            a,
            0,
        ) && self.mem.key(a) == old.mem.key(a) by {
            old.lemma_present(a);
            assert(self.mem.node_same(old.mem, a));
            reveal(SkipList::inv);
            assert(old.mem.node_ok(a));
        }
        if old.mem.linked(x, 0) {
            old.lemma_present(x);
            reveal(SkipList::inv);
            assert(old.mem.node_ok(x));
        }
        assert forall|k: K|
            self.shadowed(k) <==> if old.mem.linked(x, 0) && k == old.mem.key(x) {
                self.mem.node(x).spec_removed() && tag == 0
            } else {
                old.shadowed(k)
            } by {
            if self.shadowed(k) {
                let a = choose|a: usize|
                    self.mem.linked(a, 0) && self.mem.node(a).spec_removed() && self.mem.tag(a, 0)
                        == 0 && self.mem.key(a) == k;
                if a != x {
                    assert(old.mem.linked(a, 0) && old.mem.node(a).spec_removed() && old.mem.tag(
                        a,
                        0,
                    ) == 0 && old.mem.key(a) == k);
                    if old.mem.linked(x, 0) && k == old.mem.key(x) {
                        old.lemma_unique(a, x);
                    }
                }
            }
            if old.mem.linked(x, 0) && k == old.mem.key(x) {
                if self.mem.node(x).spec_removed() && tag == 0 {
                    assert(self.mem.linked(x, 0) && self.mem.tag(x, 0) == 0 && self.mem.key(x)
                        == k);
                }
            } else if old.shadowed(k) {
                let a = choose|a: usize|
                    old.mem.linked(a, 0) && old.mem.node(a).spec_removed() && old.mem.tag(a, 0)
                        == 0 && old.mem.key(a) == k;
                if a != x {
                    assert(self.mem.linked(a, 0) && self.mem.node(a).spec_removed()
                        && self.mem.tag(a, 0) == 0 && self.mem.key(a) == k);
                }
            }
        }
    }

    /// A change that leaves every tag as it was leaves the list as clean
    /// and as free of tags as it was.
    pub(crate) proof fn lemma_same_tags(self, old: Self)
        requires
            old.inv(),
            self.mem.chains@ == old.mem.chains@,
            forall|l: int, i: int|
                0 <= l < HEIGHT && 0 <= i < old.mem.chain(l).len() ==> self.mem.tag(
                    #[trigger] old.mem.chain(l)[i],
                    0,
                ) == old.mem.tag(old.mem.chain(l)[i], 0),
        ensures
            self.clean() == old.clean(),
            self.tagless() == old.tagless(),
    {
        assert forall|l: int| 0 <= l < HEIGHT implies #[trigger] self.mem.chain(l)
            == old.mem.chain(l) by {}
        if old.clean() {
            assert forall|i: int| 0 <= i < self.mem.chain(0).len() implies self.mem.tag(
                #[trigger] self.mem.chain(0)[i],
                0,
            ) == 0 by {
                assert(old.mem.tag(old.mem.chain(0)[i], 0) == 0);
            }
        }
        if self.clean() {
            assert forall|i: int| 0 <= i < old.mem.chain(0).len() implies old.mem.tag(
                #[trigger] old.mem.chain(0)[i],
                0,
            ) == 0 by {
                assert(self.mem.tag(self.mem.chain(0)[i], 0) == 0);
            }
        }
        if old.tagless() {
            assert forall|l: int, i: int|
                0 <= l < HEIGHT && 0 <= i < self.mem.chain(l).len() implies self.mem.tag(
                #[trigger] self.mem.chain(l)[i],
                0,
            ) == 0 by {
                assert(self.mem.chain(l) == old.mem.chain(l));
                assert(old.mem.tag(old.mem.chain(l)[i], 0) == 0);
            }
        }
        if self.tagless() {
            assert forall|l: int, i: int|
                0 <= l < HEIGHT && 0 <= i < old.mem.chain(l).len() implies old.mem.tag(
                #[trigger] old.mem.chain(l)[i],
                0,
            ) == 0 by {
                assert(self.mem.chain(l) == old.mem.chain(l));
                assert(self.mem.tag(self.mem.chain(l)[i], 0) == 0);
            }
        }
    }

    /// A change of the mark alone leaves every tag as it was.
    pub(crate) proof fn lemma_marks_tags(self, old: Self, x: usize)
        requires
            old.inv(),
            old.mem.live(x),
            old.mem.tag(x, 0) == 0,
            old.mem.relabelled(self.mem, x, 0),
        ensures
            self.clean() == old.clean(),
            self.tagless() == old.tagless(),
    {
        old.mem.lemma_live_addrs();
        assert forall|l: int, i: int|
            0 <= l < HEIGHT && 0 <= i < old.mem.chain(l).len() implies self.mem.tag(
            #[trigger] old.mem.chain(l)[i],
            0,
        ) == old.mem.tag(old.mem.chain(l)[i], 0) by {
            let a = old.mem.chain(l)[i];
            old.lemma_elem(l, i);
            reveal(SkipList::inv);
            assert(old.mem.node_ok(a));
            if a != x {
                assert(self.mem.node_same(old.mem, a));
            }
        }
        self.lemma_same_tags(old);
    }

    /// Marks the node removed and leaves its levels untagged: the first
    /// half of a logical removal. Fails, and changes nothing, where the node
    /// is marked already. The key of an entry leaves the map, and is
    /// shadowed until the mark is taken back or the levels are tagged.
    pub fn mark_removed(&mut self, r: &NodeRef) -> (ok: bool)
        requires
            total_order::<K>(),
            old(self).wf(),
            old(self).has_node(*r),
        ensures
            final(self).wf(),
            ok == !old(self).node_of(*r).spec_removed(),
            final(self).has_node(*r),
            final(self).node_of(*r).spec_removed(),
            final(self).node_of(*r).key == old(self).node_of(*r).key,
            final(self).node_of(*r).val == old(self).node_of(*r).val,
            final(self).node_of(*r).levels@ == old(self).node_of(*r).levels@,
            final(self).node_of(*r).spec_height() == old(self).node_of(*r).spec_height(),
            final(self).node_of(*r).spec_refs() == old(self).node_of(*r).spec_refs(),
            final(self).view() == if old(self).is_entry(*r) {
                old(self).view().remove(old(self).node_of(*r).key)
            } else {
                old(self).view()
            },
            final(self).live_count() == if old(self).is_entry(*r) {
                old(self).live_count() - 1
            } else {
                old(self).live_count() as int
            },
            forall|k: K|
                final(self).shadowed(k) <==> old(self).shadowed(k) || (old(self).is_entry(*r) && k
                    == old(self).node_of(*r).key),
            final(self).spec_len() == old(self).spec_len(),
            final(self).max_height() == old(self).max_height(),
            final(self).seed() == old(self).seed(),
            final(self).slots() == old(self).slots(),
            final(self).same_links(*old(self)),
            final(self).clean() == old(self).clean(),
            final(self).tagless() == old(self).tagless(),
            final(self).same_but(*old(self), *r),
            final(self).retired_count() == old(self).retired_count(),
    {
        proof {
            reveal(SkipList::inv);
            assert(self.mem.node_ok(r.addr));
            self.mem.lemma_live_addr(r.addr);
            old(self).lemma_shadow_absent(self.mem.key(r.addr));
        }
        let node = self.mem.node_mut(r.addr);
        let done = node.set_removed().is_ok();
        proof {
            if done {
                assert forall|k: int|
                    0 <= k < old(self).mem.node(r.addr).levels@.len() implies #[trigger] self.mem.node(
                    r.addr,
                ).levels@[k] == (old(self).mem.node(r.addr).levels@[k].0, 0usize) by {
                    assert(old(self).mem.tag(r.addr, k) == old(self).mem.tag(r.addr, 0));
                }
                old(self).mem.lemma_relabelled_intro(self.mem, r.addr, 0);
                self.lemma_marks(*old(self), r.addr, 0);
                self.lemma_marks_shadow(*old(self), r.addr, 0);
                self.lemma_marks_tags(*old(self), r.addr);
            } else {
                self.lemma_untouched(*old(self), r.addr);
            }
            self.lemma_same_but(*old(self), *r);
        }
        done
    }

    /// What has changed one node only has left the others as they were.
    pub(crate) proof fn lemma_same_but(self, old: Self, r: NodeRef)
        requires
            self.mem.same_nodes_but(old.mem, r.addr),
        ensures
            self.same_but(old, r),
    {
        assert forall|s: NodeRef| s.addr != r.addr implies (#[trigger] self.has_node(s)
            <==> old.has_node(s)) && (old.has_node(s) ==> self.node_of(s) == old.node_of(s)) by {
            assert(self.mem.live(s.addr) <==> old.mem.live(s.addr));
            if old.mem.live(s.addr) {
                assert(self.mem.node(s.addr) == old.mem.node(s.addr));
            }
        }
    }

    /// Takes the mark back from a node that is marked removed and carries
    /// no tag. Fails, and changes nothing, for any other node. The entry is
    /// in the map again.
    pub fn clear_removed(&mut self, r: &NodeRef) -> (ok: bool)
        requires
            total_order::<K>(),
            old(self).wf(),
            old(self).has_node(*r),
            old(self).links(*r, 0) && old(self).node_of(*r).spec_removed() && old(self).node_of(
                *r,
            ).tag(0) == 0 ==> old(self).live_count() < old(self).spec_len(),
        ensures
            final(self).wf(),
            ok == (old(self).node_of(*r).spec_removed() && old(self).node_of(*r).tag(0) == 0),
            final(self).has_node(*r),
            final(self).node_of(*r).spec_removed() == (old(self).node_of(*r).spec_removed() && !ok),
            final(self).node_of(*r).key == old(self).node_of(*r).key,
            final(self).node_of(*r).val == old(self).node_of(*r).val,
            final(self).node_of(*r).levels@ == old(self).node_of(*r).levels@,
            final(self).node_of(*r).spec_height() == old(self).node_of(*r).spec_height(),
            final(self).node_of(*r).spec_refs() == old(self).node_of(*r).spec_refs(),
            final(self).view() == if ok && old(self).links(*r, 0) {
                old(self).view().insert(old(self).node_of(*r).key, old(self).node_of(*r).val)
            } else {
                old(self).view()
            },
            final(self).live_count() == if ok && old(self).links(*r, 0) {
                old(self).live_count() + 1
            } else {
                old(self).live_count()
            },
            forall|k: K|
                final(self).shadowed(k) <==> old(self).shadowed(k) && !(ok && old(self).links(*r, 0)
                    && k == old(self).node_of(*r).key),
            final(self).spec_len() == old(self).spec_len(),
            final(self).max_height() == old(self).max_height(),
            final(self).seed() == old(self).seed(),
            final(self).slots() == old(self).slots(),
            final(self).same_links(*old(self)),
            final(self).clean() == old(self).clean(),
            final(self).tagless() == old(self).tagless(),
            final(self).same_but(*old(self), *r),
            final(self).retired_count() == old(self).retired_count(),
    {
        proof {
            reveal(SkipList::inv);
            assert(self.mem.node_ok(r.addr));
            self.mem.lemma_live_addr(r.addr);
        }
        let marked = self.mem.node_ref(r.addr).removed() && self.mem.load(r.addr, 0).1 == 0;
        if !marked {
            proof {
                assert(self.view() == old(self).view());
                self.lemma_same_but(*old(self), *r);
            }
            return false;
        }
        let node = self.mem.node_mut(r.addr);
        let ghost w0 = node.state;
        let unmark = |w: u32| -> (m: u32)
            ensures
                m == w & 0x7fff_ffffu32,
            { w & 0x7fff_ffffu32 };
        proof {
            assert((w0 & 0x7fff_ffffu32) % 64 == w0 % 64) by (bit_vector);
            assert(((w0 & 0x7fff_ffffu32) % 0x8000_0000) / 64 == (w0 % 0x8000_0000) / 64)
                by (bit_vector);
            assert((w0 & 0x7fff_ffffu32) < 0x8000_0000) by (bit_vector);
        }
        let _ = node.set_har_with(unmark);
        proof {
            assert forall|k: int|
                0 <= k < old(self).mem.node(r.addr).levels@.len() implies #[trigger] self.mem.node(
                r.addr,
            ).levels@[k] == (old(self).mem.node(r.addr).levels@[k].0, 0usize) by {
                assert(old(self).mem.tag(r.addr, k) == old(self).mem.tag(r.addr, 0));
            }
            old(self).mem.lemma_relabelled_intro(self.mem, r.addr, 0);
            self.lemma_marks(*old(self), r.addr, 0);
            self.lemma_marks_shadow(*old(self), r.addr, 0);
            self.lemma_marks_tags(*old(self), r.addr);
            if old(self).mem.linked(r.addr, 0) {
                assert(old(self).shadowed(old(self).mem.key(r.addr)));
            }
            self.lemma_same_but(*old(self), *r);
        }
        true
    }

    /// Removes the entry logically and leaves it linked: the node is
    /// marked removed and every level of it is tagged, so that the next
    /// search that meets it unlinks it. Fails, and changes nothing, where
    /// the node is marked already. The length stays as it is.
    pub fn remove_entry(&mut self, r: &NodeRef) -> (ok: bool)
        requires
            total_order::<K>(),
            old(self).wf(),
            old(self).has_node(*r),
        ensures
            final(self).wf(),
            ok == !old(self).node_of(*r).spec_removed(),
            final(self).has_node(*r),
            final(self).node_of(*r).spec_removed(),
            final(self).node_of(*r).key == old(self).node_of(*r).key,
            final(self).node_of(*r).val == old(self).node_of(*r).val,
            final(self).node_of(*r).spec_height() == old(self).node_of(*r).spec_height(),
            final(self).node_of(*r).spec_refs() == old(self).node_of(*r).spec_refs(),
            ok ==> forall|l: int|
                0 <= l < final(self).node_of(*r).spec_height() ==> #[trigger] final(self).node_of(
                    *r,
                ).levels@[l] == (old(self).node_of(*r).levels@[l].0, 1usize),
            !ok ==> final(self).node_of(*r).levels@ == old(self).node_of(*r).levels@,
            final(self).view() == if old(self).is_entry(*r) {
                old(self).view().remove(old(self).node_of(*r).key)
            } else {
                old(self).view()
            },
            final(self).live_count() == if old(self).is_entry(*r) {
                old(self).live_count() - 1
            } else {
                old(self).live_count() as int
            },
            forall|k: K| final(self).shadowed(k) <==> old(self).shadowed(k),
            final(self).spec_len() == old(self).spec_len(),
            final(self).max_height() == old(self).max_height(),
            final(self).seed() == old(self).seed(),
            final(self).slots() == old(self).slots(),
            final(self).same_links(*old(self)),
            old(self).unmarked() ==> final(self).unmarked(),
            final(self).same_but(*old(self), *r),
            final(self).retired_count() == old(self).retired_count(),
    {
        proof {
            reveal(SkipList::inv);
            assert(self.mem.node_ok(r.addr));
            self.mem.lemma_live_addr(r.addr);
            old(self).lemma_shadow_absent(self.mem.key(r.addr));
            if !self.mem.node(r.addr).spec_removed() {
                self.mem.lemma_untagged(r.addr, self.mem.node(r.addr).spec_height() as int);
            }
        }
        let node = self.mem.node_mut(r.addr);
        let ghost height = node.spec_height();
        let done = node.try_remove_and_tag().is_ok();
        proof {
            if done {
                old(self).mem.lemma_relabelled_intro(self.mem, r.addr, 1);
                self.lemma_marks(*old(self), r.addr, 1);
                self.lemma_marks_shadow(*old(self), r.addr, 1);
                if old(self).unmarked() {
                    assert forall|i: int|
                        0 <= i < self.mem.chain(0).len() && self.mem.node(
                            #[trigger] self.mem.chain(0)[i],
                        ).spec_removed() implies self.mem.tag(self.mem.chain(0)[i], 0) == 1 by {
                        let a = self.mem.chain(0)[i];
                        assert(old(self).mem.chain(0)[i] == a);
                        old(self).lemma_elem(0, i);
                        if a != r.addr {
                            assert(self.mem.node(a).state == old(self).mem.node(a).state);
                            assert(self.mem.tower(a) == old(self).mem.tower(a));
                        }
                    }
                }
            } else {
                self.lemma_untouched(*old(self), r.addr);
            }
            self.lemma_same_but(*old(self), *r);
        }
        done
    }

    /// A node that was handed out and came back as it was leaves the list
    /// as it was.
    pub(crate) proof fn lemma_untouched(self, old: Self, x: usize)
        requires
            total_order::<K>(),
            old.wf(),
            old.mem.live(x),
            self.mem.same_elsewhere(old.mem, x),
            self.mem.chains == old.mem.chains,
            self.mem.node(x) == old.mem.node(x),
            self.state == old.state,
            self.garbage == old.garbage,
        ensures
            self.wf(),
            self.view() == old.view(),
            self.live_count() == old.live_count(),
            forall|k: K| self.shadowed(k) <==> old.shadowed(k),
            self.clean() == old.clean(),
            self.tagless() == old.tagless(),
            self.unmarked() == old.unmarked(),
            self.mem.nodes@.len() == old.mem.nodes@.len(),
            self.same_links(old),
    {
        old.mem.lemma_live_addrs();
        self.mem.lemma_live_addrs();
        assert(self.mem.head == old.mem.head);
        assert forall|a: usize| #[trigger] self.mem.live(a) == old.mem.live(a) by {}
        assert forall|a: usize| old.mem.live(a) implies #[trigger] self.mem.node(a)
            == old.mem.node(a) by {}
        assert forall|a: usize| self.mem.valid(a) implies #[trigger] self.mem.tower(a)
            == old.mem.tower(a) by {}
        self.mem.lemma_unchanged_intro(old.mem, x);
        reveal(SkipList::inv);
        old.mem.lemma_unchanged_inv(self.mem);
        self.lemma_inv_unchanged(old);
        assert forall|a: usize| self.present(a) <==> old.present(a) by {
            if old.mem.linked(a, 0) {
                old.lemma_present(a);
            }
        }
        assert forall|a: usize| old.present(a) implies self.mem.key(a) == old.mem.key(a)
            && self.mem.node(a).val == old.mem.node(a).val by {
            old.lemma_present(a);
        }
        self.lemma_view_same(old);
        assert forall|l: int, i: int|
            0 <= l < HEIGHT && 0 <= i < old.mem.chain(l).len() implies self.mem.tower(
            #[trigger] old.mem.chain(l)[i],
        ) == old.mem.tower(old.mem.chain(l)[i]) && self.mem.node(old.mem.chain(l)[i])
            == old.mem.node(old.mem.chain(l)[i]) by {
            old.lemma_elem(l, i);
        }
        self.lemma_same_tags(old);
        assert(self.unmarked() == old.unmarked()) by {
            if old.unmarked() {
                assert forall|i: int|
                    0 <= i < self.mem.chain(0).len() && self.mem.node(
                        #[trigger] self.mem.chain(0)[i],
                    ).spec_removed() implies self.mem.tag(self.mem.chain(0)[i], 0) == 1 by {
                    assert(old.mem.chain(0)[i] == self.mem.chain(0)[i]);
                }
            }
            if self.unmarked() {
                assert forall|i: int|
                    0 <= i < old.mem.chain(0).len() && old.mem.node(
                        #[trigger] old.mem.chain(0)[i],
                    ).spec_removed() implies old.mem.tag(old.mem.chain(0)[i], 0) == 1 by {
                    assert(old.mem.chain(0)[i] == self.mem.chain(0)[i]);
                }
            }
        }
        assert forall|k: K| self.shadowed(k) <==> old.shadowed(k) by {
            if self.shadowed(k) {
                let a = choose|a: usize|
                    self.mem.linked(a, 0) && self.mem.node(a).spec_removed() && self.mem.tag(a, 0)
                        == 0 && self.mem.key(a) == k;
                old.lemma_present(a);
                assert(old.mem.linked(a, 0) && old.mem.node(a).spec_removed() && old.mem.tag(a, 0)
                    == 0 && old.mem.key(a) == k);
            }
            if old.shadowed(k) {
                let a = choose|a: usize|
                    old.mem.linked(a, 0) && old.mem.node(a).spec_removed() && old.mem.tag(a, 0)
                        == 0 && old.mem.key(a) == k;
                old.lemma_present(a);
                assert(self.mem.linked(a, 0) && self.mem.node(a).spec_removed() && self.mem.tag(
                    a,
                    0,
                ) == 0 && self.mem.key(a) == k);
            }
        }
    }
}

} // verus!
