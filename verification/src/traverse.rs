use vstd::prelude::*;
use crate::height::ListState;
use crate::list::{Probe, SkipList};
use crate::memory::{Memory, HEAD_ADDR};
use crate::node::{Node, HEIGHT};
use crate::ops::Entry;
use crate::order::{lemma_lt_irrefl, lt, total_order};
use crate::reclaim::{addr_or_null, Can, NodeRef};
use crate::tagged::NULL;

verus! {

impl<K: Ord, V> SkipList<K, V> {
    /// The keys and values of the nodes that level 0 links, in order.
    pub open(crate) spec fn level0(self) -> Seq<(K, V)> {
        Seq::new(
            self.mem.chain(0).len(),
            |i: int| (self.mem.key(self.mem.chain(0)[i]), self.mem.node(self.mem.chain(0)[i]).val),
        )
    }

    /// No node that level 0 links carries a tag: every removal that was
    /// begun has been finished at that level.
    pub open(crate) spec fn clean(self) -> bool {
        forall|i: int|
            0 <= i < self.mem.chain(0).len() ==> self.mem.tag(#[trigger] self.mem.chain(0)[i], 0)
                == 0
    }

    /// No node that level 0 links is marked removed without being tagged.
    pub open(crate) spec fn unmarked(self) -> bool {
        forall|i: int|
            0 <= i < self.mem.chain(0).len() ==> (self.mem.node(
                #[trigger] self.mem.chain(0)[i],
            ).spec_removed() ==> self.mem.tag(self.mem.chain(0)[i], 0) == 1)
    }

    /// No level links a node.
    pub open(crate) spec fn bare(self) -> bool {
        forall|l: int| 0 <= l < HEIGHT ==> (#[trigger] self.mem.chain(l)).len() == 0
    }

    /// An empty list is well formed and stands for the empty map.
    pub(crate) proof fn lemma_empty(self)
        requires
            self.mem.nodes@.len() == 0,
            self.mem.head.levels@ == Seq::new(HEIGHT as nat, |i: int| (NULL, 0usize)),
            self.mem.chains@ == Seq::new(HEIGHT as nat, |i: int| Seq::<usize>::empty()),
            self.state.len == 0,
            self.state.max_height == 1,
            self.garbage.retired@.len() == 0,
        ensures
            self.wf(),
            self.view() == Map::<K, V>::empty(),
            self.live_count() == 0,
            self.has_room(),
            self.clean(),
            self.unmarked(),
            self.level0().len() == 0,
            self.tagless(),
            self.slots() == 0,
            self.bare(),
    {
        reveal(SkipList::inv);
        reveal(Memory::live);
        assert forall|l: int| 0 <= l < HEIGHT implies #[trigger] self.mem.chain_ok(l) by {
            assert(self.mem.chain(l).len() == 0);
        }
        assert(self.present_set() =~= Set::empty()) by {
            assert forall|a: usize| !self.present(a) by {
                assert(self.mem.chain(0).len() == 0);
            }
        }
        assert(self.view() =~= Map::<K, V>::empty()) by {
            assert forall|k: K| !self.has_key(k) by {
                if self.has_key(k) {
                    assert(self.present_set().contains(self.holder(k)));
                }
            }
        }
        assert(usize::MAX >= 0xffff_ffff);
    }

    /// An empty list whose height stream starts at `seed`.
    pub fn with_seed(seed: u64) -> (list: Self)
        ensures
            list.wf(),
            list.seed() == seed,
            list.max_height() == 1,
            list.slots() == 0,
            list.tagless(),
            list.bare(),
            list.view() == Map::<K, V>::empty(),
            list.spec_len() == 0,
            list.live_count() == 0,
            list.has_room(),
            list.clean(),
            list.unmarked(),
    {
        let list = SkipList {
            mem: Memory::new(),
            state: ListState::with_seed(seed),
            garbage: Can::new(),
        };
        proof {
            list.lemma_empty();
        }
        list
    }

    /// An empty list with a random seed.
    pub fn new() -> (list: Self)
        ensures
            list.wf(),
            list.max_height() == 1,
            list.slots() == 0,
            list.tagless(),
            list.bare(),
            list.view() == Map::<K, V>::empty(),
            list.spec_len() == 0,
            list.live_count() == 0,
            list.has_room(),
            list.clean(),
            list.unmarked(),
    {
        let list = SkipList { mem: Memory::new(), state: ListState::new(), garbage: Can::new() };
        proof {
            list.lemma_empty();
        }
        list
    }

    /// Whether there is room for one more node.
    pub fn room(&self) -> (r: bool)
        ensures
            r == self.has_room(),
    {
        self.mem.room()
    }

    /// Frees the retired nodes, and returns how many they were. Between
    /// operations nothing is protected, so every retired node goes.
    pub fn eager_reclaim(&mut self) -> (count: usize)
        requires
            total_order::<K>(),
            old(self).wf(),
        ensures
            final(self).wf(),
            final(self).view() == old(self).view(),
            final(self).spec_len() == old(self).spec_len(),
            final(self).live_count() == old(self).live_count(),
            final(self).level0() == old(self).level0(),
            final(self).max_height() == old(self).max_height(),
            final(self).seed() == old(self).seed(),
            old(self).clean() ==> final(self).clean(),
            old(self).unmarked() ==> final(self).unmarked(),
            count == old(self).retired_count(),
            final(self).retired_count() == 0,
            final(self).slots() == old(self).slots(),
            old(self).tagless() ==> final(self).tagless(),
            forall|r: NodeRef|
                old(self).has_node(r) ==> (#[trigger] final(self).has_node(r) <==> !old(self).retired(r)),
            forall|r: NodeRef|
                #[trigger] final(self).has_node(r) ==> final(self).node_of(r) == old(self).node_of(r),
    {
        let ghost s0 = *self;
        self.garbage.release_all();
        proof {
            self.lemma_unguard(s0);
        }
        let ghost s1 = *self;
        let count = self.reclaim();
        proof {
            self.lemma_kept_view(s1);
            assert forall|i: int| 0 <= i < s1.mem.chain(0).len() implies self.mem.live(
                #[trigger] s1.mem.chain(0)[i],
            ) by {
                self.lemma_elem(0, i);
            }
            self.lemma_level0_same(s1);
            if self.garbage.retired@.len() > 0 {
                assert(self.garbage.holds(self.garbage.retired@[0]));
                assert(s1.garbage.protects(self.garbage.retired@[0]));
            }
            assert forall|r: NodeRef| old(self).has_node(r) implies (#[trigger] self.has_node(r)
                <==> !old(self).retired(r)) by {
                assert(self.mem.live(r.addr) <==> s1.mem.live(r.addr) && !(s1.garbage.holds(r.addr)
                    && !s1.garbage.protects(r.addr)));
            }
            assert forall|r: NodeRef| #[trigger] self.has_node(r) implies self.node_of(r) == old(self).node_of(r) by {
                assert(self.mem.node(r.addr) == s1.mem.node(r.addr));
            }
            if old(self).tagless() {
                assert forall|l: int, i: int|
                    0 <= l < HEIGHT && 0 <= i < self.mem.chain(l).len() implies self.mem.tag(
                    #[trigger] self.mem.chain(l)[i],
                    0,
                ) == 0 by {
                    let a = self.mem.chain(l)[i];
                    assert(s1.mem.chain(l)[i] == a);
                    self.lemma_elem(l, i);
                    self.mem.lemma_live_addr(a);
                    assert(self.mem.node(a) == s1.mem.node(a));
                }
            }
        }
        count
    }

    /// Where level 0 links the same nodes, and they are what they were, the
    /// entries of level 0 are the same.
    pub(crate) proof fn lemma_level0_same(self, old: Self)
        requires
            old.inv(),
            self.mem.chain(0) == old.mem.chain(0),
            forall|a: usize|
                self.mem.live(a) ==> #[trigger] self.mem.node(a) == old.mem.node(a),
            forall|i: int|
                0 <= i < old.mem.chain(0).len() ==> self.mem.live(#[trigger] old.mem.chain(0)[i]),
        ensures
            self.level0() == old.level0(),
            old.clean() ==> self.clean(),
            old.unmarked() ==> self.unmarked(),
    {
        old.mem.lemma_live_addrs();
        self.mem.lemma_live_addrs();
        assert forall|i: int| 0 <= i < old.mem.chain(0).len() implies self.mem.node(
            #[trigger] old.mem.chain(0)[i],
        ) == old.mem.node(old.mem.chain(0)[i]) && self.mem.tower(old.mem.chain(0)[i])
            == old.mem.tower(old.mem.chain(0)[i]) by {
            let a = old.mem.chain(0)[i];
            assert(self.mem.live(a));
            assert(self.mem.node(a) == old.mem.node(a));
        }
        assert(self.level0() =~= old.level0());
    }

    /// The node after `node` at level 0 that carries no tag; the tagged
    /// nodes in between are unlinked on the way.
    ///
    /// A start node that carries a tag itself is stale: its pointer says
    /// nothing of the level any more, and a search for the closest node to
    /// its key gives the answer.
    pub(crate) fn next_node(&mut self, node: &NodeRef, Ghost(p): Ghost<int>) -> (r: Option<NodeRef>)
        requires
            total_order::<K>(),
            old(self).inv(),
            node.addr == HEAD_ADDR || old(self).mem.live(node.addr),
            old(self).stale(node.addr) || (0 <= p <= old(self).mem.chain(0).len() && node.addr
                == old(self).mem.pred_at(0, p)),
        ensures
            final(self).inv(),
            final(self).helped(*old(self)),
            r.is_some() ==> final(self).mem.tag(r.unwrap().addr, 0) == 0 && final(self).mem.live(
                r.unwrap().addr,
            ) && final(self).mem.linked(r.unwrap().addr, 0) && r.unwrap().addr != NULL,
            old(self).stale(node.addr) ==> exists|j: int|
                final(self).mem.bracket(old(self).mem.key(node.addr), 0, j) && addr_or_null(r)
                    == #[trigger] final(self).mem.next_at(0, j),
            !old(self).stale(node.addr) ==> {
                &&& 0 <= p <= final(self).mem.chain(0).len()
                &&& final(self).mem.chain(0).len() <= old(self).mem.chain(0).len()
                &&& final(self).mem.chain(0).subrange(0, p) == old(self).mem.chain(0).subrange(0, p)
                &&& node.addr == final(self).mem.pred_at(0, p)
                &&& (r.is_none() <==> p == final(self).mem.chain(0).len())
                &&& (r.is_some() ==> r.unwrap().addr == final(self).mem.chain(0)[p])
            },
            old(self).tagless() && !old(self).stale(node.addr) ==> final(self).guarded(*old(self)),
    {
        proof {
            reveal(SkipList::inv);
            if node.addr != HEAD_ADDR {
                assert(self.mem.node_ok(node.addr));
                self.mem.lemma_live_addr(node.addr);
            }
        }
        if node.addr != HEAD_ADDR && self.mem.load(node.addr, 0).1 == 1 {
            let search = self.find_probe(&Probe::Node(node.addr), true);
            proof {
                let key = old(self).mem.key(node.addr);
                self.lemma_closest_live(key, search);
                reveal(SkipList::found);
                assert(self.mem.found_at(
                    key,
                    0,
                    search.pos@[0],
                    search.prev@[0].0.addr,
                    addr_or_null(search.prev@[0].1),
                ));
                assert(addr_or_null(search.target) == self.mem.next_at(0, search.pos@[0]));
            }
            return search.target;
        }
        proof {
            self.lemma_pred(0, p);
        }
        let (skipped, Ghost(q)) = self.skip_tagged(node, 0, Ghost(p));
        proof {
            self.lemma_end(0, p);
            if p < self.mem.chain(0).len() {
                self.lemma_elem(0, p);
            }
            assert(self.mem.chain(0).subrange(0, p) =~= old(self).mem.chain(0).subrange(0, p));
            if old(self).tagless() && p < old(self).mem.chain(0).len() {
                assert(old(self).mem.tag(old(self).mem.chain(0)[p], 0) == 0);
            }
        }
        match skipped {
            Ok(next) => next,
            Err(_) => self.find_probe(&Probe::Node(node.addr), true).target,
        }
    }

    /// The node at `a` is stale as a place to go on from: it carries a tag.
    pub open(crate) spec fn stale(self, a: usize) -> bool {
        a != HEAD_ADDR && self.mem.tag(a, 0) == 1
    }

    /// The first entry of level 0, tagged nodes left out; `None` for a list
    /// of length 0.
    pub fn get_first<'a>(&'a mut self) -> (r: Option<Entry<'a, K, V>>)
        requires
            total_order::<K>(),
            old(self).wf(),
        ensures
            final(self).wf(),
            final(self).view() == old(self).view(),
            final(self).spec_len() == old(self).spec_len(),
            final(self).live_count() == old(self).live_count(),
            final(self).max_height() == old(self).max_height(),
            final(self).seed() == old(self).seed(),
            final(self).slots() == old(self).slots(),
            final(self).helped(*old(self)),
            final(self).keeps_nodes(*old(self)),
            old(self).tagless() ==> final(self).same_memory(*old(self)),
            old(self).clean() ==> final(self).clean(),
            old(self).unmarked() ==> final(self).unmarked(),
            r.is_some() <==> old(self).spec_len() > 0 && final(self).level0().len() > 0,
            r.is_some() ==> (r.unwrap().spec_key(), r.unwrap().spec_val()) == final(self).level0()[0],
            r.is_some() ==> final(self).tag_at(0) == 0,
            r.is_some() && old(self).unmarked() ==> old(self).view().contains_key(
                r.unwrap().spec_key(),
            ) && old(self).view()[r.unwrap().spec_key()] == r.unwrap().spec_val(),
            forall|k: K|
                r.is_some() && old(self).view().contains_key(k) ==> !lt(k, r.unwrap().spec_key()),
            forall|k: K| r.is_none() ==> !old(self).view().contains_key(k),
    {
        if self.is_empty() {
            proof {
                self.lemma_helped_refl();
                self.lemma_helped_nodes(*old(self));
                self.lemma_no_entries();
            }
            return None;
        }
        let curr = self.protect_raw(HEAD_ADDR);
        proof {
            old(self).lemma_helped_refl();
            self.lemma_guarded(*old(self), *old(self));
        }
        let ghost s1 = *self;
        let next = self.next_node(&curr, Ghost(0));
        let ghost s2 = *self;
        self.garbage.release_all();
        proof {
            s2.lemma_helped_trans(s1, *old(self));
            s2.lemma_helped_kept(*old(self));
            s2.lemma_kept_view(*old(self));
            s2.lemma_kept_unmarked(*old(self));
            s2.lemma_kept_node(*old(self), NULL);
            self.lemma_unguard(s2);
            self.lemma_level0_mem(s2);
            self.lemma_helped_mem(s2, *old(self));
            self.lemma_helped_nodes(*old(self));
            if old(self).tagless() {
                s2.lemma_guarded_trans(s1, *old(self));
            }
            self.lemma_first_entry();
            if next.is_some() {
                assert(self.tag_at(0) == 0);
                if self.unmarked() {
                    assert(self.view().contains_key(self.level0()[0].0));
                }
            }
        }
        match next {
            Some(n) => Some(Entry { node: self.mem.node_ref(n.addr) }),
            None => None,
        }
    }

    /// The entries of level 0 depend on the memory alone.
    pub(crate) proof fn lemma_level0_mem(self, old: Self)
        requires
            self.mem == old.mem,
        ensures
            self.level0() == old.level0(),
            self.clean() == old.clean(),
            self.unmarked() == old.unmarked(),
    {
        assert(self.level0() =~= old.level0());
    }

    /// What keeps the nodes without a tag keeps a list unmarked.
    pub(crate) proof fn lemma_kept_unmarked(self, old: Self)
        requires
            old.inv(),
            self.inv(),
            self.kept(old),
        ensures
            old.unmarked() ==> self.unmarked(),
    {
        if old.unmarked() {
            assert forall|i: int|
                0 <= i < self.mem.chain(0).len() && self.mem.node(
                    #[trigger] self.mem.chain(0)[i],
                ).spec_removed() implies self.mem.tag(self.mem.chain(0)[i], 0) == 1 by {
                let a = self.mem.chain(0)[i];
                self.lemma_elem(0, i);
                self.lemma_kept_node(old, a);
                assert(old.mem.linked(a, 0));
                let j = choose|j: int| 0 <= j < old.mem.chain(0).len() && old.mem.chain(0)[j] == a;
                assert(old.mem.chain(0)[j] == a);
            }
        }
    }

    /// The last entry of level 0, tagged nodes left out; `None` for a list
    /// of length 0. The walk unlinks every tagged node of level 0.
    pub fn get_last<'a>(&'a mut self) -> (r: Option<Entry<'a, K, V>>)
        requires
            total_order::<K>(),
            old(self).wf(),
        ensures
            final(self).wf(),
            final(self).view() == old(self).view(),
            final(self).spec_len() == old(self).spec_len(),
            final(self).live_count() == old(self).live_count(),
            final(self).max_height() == old(self).max_height(),
            final(self).seed() == old(self).seed(),
            final(self).slots() == old(self).slots(),
            final(self).helped(*old(self)),
            final(self).keeps_nodes(*old(self)),
            old(self).tagless() ==> final(self).same_memory(*old(self)),
            old(self).clean() ==> final(self).clean(),
            old(self).unmarked() ==> final(self).unmarked(),
            old(self).spec_len() > 0 ==> final(self).clean(),
            r.is_some() <==> old(self).spec_len() > 0 && final(self).level0().len() > 0,
            r.is_some() ==> (r.unwrap().spec_key(), r.unwrap().spec_val()) == final(self).level0().last(),
            r.is_some() && old(self).unmarked() ==> old(self).view().contains_key(
                r.unwrap().spec_key(),
            ) && old(self).view()[r.unwrap().spec_key()] == r.unwrap().spec_val(),
            forall|k: K|
                r.is_some() && old(self).view().contains_key(k) ==> !lt(r.unwrap().spec_key(), k),
            forall|k: K| r.is_none() ==> !old(self).view().contains_key(k),
    {
        if self.is_empty() {
            proof {
                self.lemma_helped_refl();
                self.lemma_helped_nodes(*old(self));
                self.lemma_no_entries();
            }
            return None;
        }
        let addrs = self.walk();
        let ghost s2 = *self;
        self.garbage.release_all();
        proof {
            s2.lemma_helped_kept(*old(self));
            s2.lemma_kept_view(*old(self));
            s2.lemma_kept_unmarked(*old(self));
            s2.lemma_kept_node(*old(self), NULL);
            self.lemma_unguard(s2);
            self.lemma_level0_mem(s2);
            self.lemma_helped_mem(s2, *old(self));
            self.lemma_helped_nodes(*old(self));
            self.lemma_first_entry();
            reveal(SkipList::inv);
            assert(self.mem.chain_ok(0));
        }
        if addrs.len() == 0 {
            None
        } else {
            let a = addrs[addrs.len() - 1];
            proof {
                assert(self.mem.live(self.mem.chain(0)[addrs@.len() - 1]));
                assert(self.tag_at(addrs@.len() - 1) == 0);
                if self.unmarked() {
                    assert(self.view().contains_key(self.level0()[addrs@.len() - 1].0));
                }
            }
            Some(Entry { node: self.mem.node_ref(a) })
        }
    }

    /// Walks level 0 from the head to its end, unlinks every tagged node on
    /// the way, and returns the addresses of the nodes that stay, in order.
    pub(crate) fn walk(&mut self) -> (addrs: Vec<usize>)
        requires
            total_order::<K>(),
            old(self).inv(),
        ensures
            final(self).inv(),
            final(self).helped(*old(self)),
            addrs@ == final(self).mem.chain(0),
            final(self).clean(),
            old(self).tagless() ==> final(self).guarded(*old(self)),
    {
        let mut addrs: Vec<usize> = Vec::new();
        let mut curr = self.protect_raw(HEAD_ADDR);
        proof {
            old(self).lemma_helped_refl();
            self.lemma_guarded(*old(self), *old(self));
        }
        let ghost mut p: int = 0;
        loop
            invariant
                total_order::<K>(),
                old(self).inv(),
                self.inv(),
                self.helped(*old(self)),
                0 <= p <= self.mem.chain(0).len(),
                addrs@ == self.mem.chain(0).subrange(0, p),
                curr.addr == self.mem.pred_at(0, p),
                curr.addr == HEAD_ADDR || (self.mem.live(curr.addr) && self.mem.tag(curr.addr, 0)
                    == 0),
                old(self).tagless() ==> self.guarded(*old(self)),
                forall|i: int| 0 <= i < p ==> self.mem.tag(#[trigger] self.mem.chain(0)[i], 0) == 0,
            ensures
                p == self.mem.chain(0).len(),
            decreases self.mem.chain(0).len() - p,
        {
            let ghost s1 = *self;
            let next = self.next_node(&curr, Ghost(p));
            proof {
                self.lemma_helped_trans(s1, *old(self));
                if curr.addr != HEAD_ADDR {
                    self.lemma_helped_node(s1, curr.addr);
                }
                if old(self).tagless() {
                    assert(s1.tagless());
                    self.lemma_guarded_trans(s1, *old(self));
                }
                assert forall|i: int| 0 <= i < p implies self.mem.tag(
                    #[trigger] self.mem.chain(0)[i],
                    0,
                ) == 0 by {
                    assert(self.mem.chain(0)[i] == self.mem.chain(0).subrange(0, p)[i]);
                    assert(s1.mem.chain(0)[i] == s1.mem.chain(0).subrange(0, p)[i]);
                    s1.lemma_elem(0, i);
                    self.lemma_helped_node(s1, s1.mem.chain(0)[i]);
                }
            }
            match next {
                None => {
                    break;
                },
                Some(n) => {
                    addrs.push(n.addr);
                    curr = n;
                    proof {
                        assert(addrs@ =~= self.mem.chain(0).subrange(0, p + 1));
                        p = p + 1;
                    }
                },
            }
        }
        proof {
            assert(addrs@ =~= self.mem.chain(0));
        }
        addrs
    }

    /// The entries of level 0 in ascending order of their keys. The walk
    /// that collects them unlinks every tagged node of level 0.
    pub fn iter<'a>(&'a mut self) -> (entries: Vec<Entry<'a, K, V>>)
        requires
            total_order::<K>(),
            old(self).wf(),
        ensures
            final(self).wf(),
            final(self).view() == old(self).view(),
            final(self).spec_len() == old(self).spec_len(),
            final(self).live_count() == old(self).live_count(),
            final(self).max_height() == old(self).max_height(),
            final(self).seed() == old(self).seed(),
            final(self).slots() == old(self).slots(),
            final(self).helped(*old(self)),
            final(self).keeps_nodes(*old(self)),
            old(self).tagless() ==> final(self).same_memory(*old(self)),
            old(self).unmarked() ==> final(self).unmarked(),
            final(self).clean(),
            entries@.len() == final(self).level0().len(),
            forall|i: int|
                0 <= i < entries@.len() ==> (
                    (#[trigger] entries@[i]).spec_key(),
                    entries@[i].spec_val(),
                ) == final(self).level0()[i],
    {
        let addrs = self.walk();
        let ghost s2 = *self;
        self.garbage.release_all();
        proof {
            s2.lemma_helped_kept(*old(self));
            s2.lemma_kept_view(*old(self));
            s2.lemma_kept_unmarked(*old(self));
            s2.lemma_kept_node(*old(self), NULL);
            self.lemma_unguard(s2);
            self.lemma_level0_mem(s2);
            self.lemma_helped_mem(s2, *old(self));
            self.lemma_helped_nodes(*old(self));
            self.lemma_first_entry();
            reveal(SkipList::inv);
            assert(self.mem.chain_ok(0));
        }
        let this: &'a Self = self;
        let mut entries: Vec<Entry<'a, K, V>> = Vec::new();
        let mut i: usize = 0;
        while i < addrs.len()
            invariant
                i <= addrs@.len(),
                addrs@ == this.mem.chain(0),
                this.mem.chain_ok(0),
                entries@.len() == i,
                forall|j: int|
                    0 <= j < i ==> (#[trigger] entries@[j]).node == this.mem.node(
                        this.mem.chain(0)[j],
                    ),
            decreases addrs@.len() - i,
        {
            proof {
                assert(this.mem.live(this.mem.chain(0)[i as int]));
            }
            entries.push(Entry { node: this.mem.node_ref(addrs[i]) });
            i += 1;
        }
        entries
    }

    /// A list of length 0 has no entry.
    pub(crate) proof fn lemma_no_entries(self)
        requires
            self.wf(),
            self.spec_len() == 0,
        ensures
            forall|k: K| !self.view().contains_key(k),
    {
        self.lemma_finite();
        assert forall|k: K| !self.view().contains_key(k) by {
            if self.has_key(k) {
                assert(self.present_set().contains(self.holder(k)));
            }
        }
    }

    /// The ends of level 0 are the ends of the map: no key of the map is
    /// smaller than the first key of the level or greater than the last one,
    /// and a level without nodes means a map without keys. In a list that
    /// is unmarked, a node of the level without a tag is an entry.
    pub(crate) proof fn lemma_first_entry(self)
        requires
            total_order::<K>(),
            self.inv(),
        ensures
            self.level0().len() == 0 ==> forall|k: K| !self.view().contains_key(k),
            forall|k: K|
                self.level0().len() > 0 && self.view().contains_key(k) ==> !lt(
                    k,
                    self.level0()[0].0,
                ) && !lt(self.level0().last().0, k),
            forall|i: int|
                0 <= i < self.level0().len() && self.unmarked() && self.tag_at(i) == 0
                    ==> self.view().contains_key(#[trigger] self.level0()[i].0)
                        && self.view()[self.level0()[i].0]
                    == self.level0()[i].1,
    {
        reveal(SkipList::inv);
        assert(self.mem.chain_ok(0));
        let c = self.mem.chain(0);
        assert forall|k: K| self.view().contains_key(k) implies c.len() > 0 && !lt(
            k,
            self.level0()[0].0,
        ) && !lt(self.level0().last().0, k) by {
            let a = self.holder(k);
            let i = choose|i: int| 0 <= i < c.len() && c[i] == a;
            if i > 0 {
                lemma_lt_irrefl(self.mem.key(c[0]), self.mem.key(c[i]));
            } else {
                if lt(k, k) {
                    lemma_lt_irrefl(k, k);
                }
            }
            if i < c.len() - 1 {
                lemma_lt_irrefl(self.mem.key(c[i]), self.mem.key(c[c.len() - 1]));
            } else {
                if lt(k, k) {
                    lemma_lt_irrefl(k, k);
                }
            }
        }
        assert forall|i: int|
            0 <= i < self.level0().len() && self.unmarked() && self.tag_at(i)
                == 0 implies self.view().contains_key(#[trigger] self.level0()[i].0)
            && self.view()[self.level0()[i].0] == self.level0()[i].1 by {
            let a = c[i];
            assert(self.mem.linked(a, 0));
            assert(self.present(a));
            self.lemma_holder(a);
        }
    }

    /// The node that a reference stands on.
    pub fn node(&self, r: &NodeRef) -> (n: &Node<K, V>)
        requires
            self.has_node(*r),
        ensures
            *n == self.node_of(*r),
    {
        self.mem.node_ref(r.addr)
    }

    /// The node that a reference stands on, to be changed in place. The
    /// list does not look at what is done to the node: whoever changes it
    /// answers for the list being well formed afterwards.
    pub fn node_mut(&mut self, r: &NodeRef) -> (n: &mut Node<K, V>)
        requires
            old(self).has_node(*r),
        ensures
            *n == old(self).node_of(*r),
            final(self).has_node(*r),
            final(self).node_of(*r) == *final(n),
            final(self).spec_len() == old(self).spec_len(),
            final(self).max_height() == old(self).max_height(),
            final(self).slots() == old(self).slots(),
            forall|s: NodeRef|
                s.addr != r.addr ==> (#[trigger] final(self).has_node(s) <==> old(self).has_node(s))
                    && (old(self).has_node(s) ==> final(self).node_of(s) == old(self).node_of(s)),
    {
        self.mem.node_mut(r.addr)
    }
}

impl<K: Ord, V> Default for SkipList<K, V> {
    fn default() -> (list: Self)
        ensures
            list.wf(),
            list.view() == Map::<K, V>::empty(),
            list.spec_len() == 0,
    {
        Self::new()
    }
}

} // verus!
