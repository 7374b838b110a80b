use vstd::prelude::*;
use crate::list::SkipList;
use crate::node::HEIGHT;
use crate::order::{lemma_lt_irrefl, total_order};

use crate::tagged::NULL;

verus! {

impl<K: Ord, V> SkipList<K, V> {
    /// The node at `a` is an entry of the map: level 0 links it and it is
    /// not marked removed.
    pub open(crate) spec fn present(self, a: usize) -> bool {
        self.mem.linked(a, 0) && !self.mem.node(a).spec_removed()
    }

    /// Some entry has the key `k`.
    pub open(crate) spec fn has_key(self, k: K) -> bool {
        exists|a: usize| self.present(a) && self.mem.key(a) == k
    }

    /// The node of the entry with key `k`.
    pub open(crate) spec fn holder(self, k: K) -> usize {
        choose|a: usize| self.present(a) && self.mem.key(a) == k
    }

    /// The map that the list stands for: the keys and values of the nodes
    /// that level 0 links and that are not marked removed.
    pub open(crate) spec fn view(self) -> Map<K, V> {
        Map::new(|k: K| self.has_key(k), |k: K| self.mem.node(self.holder(k)).val)
    }

    /// The nodes of the entries.
    pub open(crate) spec fn present_set(self) -> Set<usize> {
        Set::new(|a: usize| self.present(a))
    }

    /// Number of nodes that level 0 links and that are not marked removed.
    pub open(crate) spec fn live_count(self) -> nat {
        self.present_set().len()
    }

    /// The list is well formed: its structure is in order, every tower is
    /// fully published, and the length is no less than the number of
    /// entries.
    pub open(crate) spec fn wf(self) -> bool {
        &&& self.inv()
        &&& self.mem.complete()
        &&& self.live_count() <= self.state.len <= self.mem.nodes@.len()
    }

    /// A node that is marked removed but not yet tagged holds `key` at level
    /// 0: it stands where the key belongs, so the key cannot be published.
    pub open(crate) spec fn shadowed(self, key: K) -> bool {
        exists|a: usize|
            self.mem.linked(a, 0) && self.mem.node(a).spec_removed() && self.mem.tag(a, 0) == 0
                && self.mem.key(a) == key
    }

    /// There is room for one more node.
    pub open(crate) spec fn has_room(self) -> bool {
        self.mem.has_room()
    }

    /// Number of slots that the list has taken so far, freed ones included.
    pub open(crate) spec fn slots(self) -> nat {
        self.mem.nodes@.len()
    }

    /// Number of levels up to the highest one below `n` that links a node.
    pub open(crate) spec fn populated_below(self, n: int) -> int
        decreases n,
    {
        if n <= 0 {
            0
        } else if self.mem.chain(n - 1).len() > 0 {
            n
        } else {
            self.populated_below(n - 1)
        }
    }

    /// Number of levels of the head up to the highest one that links a
    /// node: 0 for an empty list.
    pub open(crate) spec fn populated(self) -> int {
        self.populated_below(crate::node::HEIGHT as int)
    }

    /// No level links a node that did not link one in `old`.
    pub open(crate) spec fn thinned(self, old: Self) -> bool {
        forall|l: int|
            0 <= l < crate::node::HEIGHT ==> (#[trigger] self.mem.chain(l)).len() > 0
                ==> old.mem.chain(l).len() > 0
    }

    /// A level that links a node counts among the populated ones.
    pub(crate) proof fn lemma_populated_at(self, n: int, l: int)
        requires
            0 <= l < n,
            self.mem.chain(l).len() > 0,
        ensures
            self.populated_below(n) >= l + 1,
        decreases n,
    {
        if self.mem.chain(n - 1).len() == 0 {
            self.lemma_populated_at(n - 1, l);
        }
    }

    /// The count of populated levels below `n` is at most `n`, and the level
    /// just below the count links a node.
    pub(crate) proof fn lemma_populated_bounds(self, n: int)
        requires
            0 <= n,
        ensures
            0 <= self.populated_below(n) <= n,
            self.populated_below(n) > 0 ==> self.mem.chain(self.populated_below(n) - 1).len() > 0,
        decreases n,
    {
        if n > 0 && self.mem.chain(n - 1).len() == 0 {
            self.lemma_populated_bounds(n - 1);
        }
    }

    /// A list that was thinned has no more populated levels.
    pub(crate) proof fn lemma_populated_thinned(self, old: Self, n: int)
        requires
            self.thinned(old),
            0 <= n <= crate::node::HEIGHT,
        ensures
            0 <= self.populated_below(n) <= old.populated_below(n),
        decreases n,
    {
        if n > 0 {
            self.lemma_populated_thinned(old, n - 1);
            if self.mem.chain(n - 1).len() > 0 {
                assert(old.mem.chain(n - 1).len() > 0);
            } else if old.mem.chain(n - 1).len() > 0 {
                self.lemma_populated_bounds(n - 1);
            }
        }
    }

    /// What keeps the nodes without a tag thins the list.
    pub(crate) proof fn lemma_kept_thinned(self, mid: Self, old: Self)
        requires
            mid.inv(),
            self.kept(mid),
            mid.thinned(old),
        ensures
            self.thinned(old),
    {
        assert forall|l: int|
            0 <= l < crate::node::HEIGHT && (#[trigger] self.mem.chain(l)).len()
                > 0 implies old.mem.chain(l).len() > 0 by {
            let a = self.mem.chain(l)[0];
            assert(self.mem.linked(a, l));
            self.lemma_kept_node(mid, a);
            assert(mid.mem.linked(a, l));
            assert(mid.mem.chain(l).len() > 0);
        }
    }

    /// A capped height is at most one above the populated levels.
    pub(crate) proof fn lemma_capped_populated(self, height: int)
        requires
            self.inv(),
            1 <= height <= crate::node::HEIGHT,
        ensures
            self.mem.capped(height) <= self.populated() + 1,
        decreases height,
    {
        self.lemma_populated_thinned(self, crate::node::HEIGHT as int);
        if height >= 2 && self.mem.next(crate::memory::HEAD_ADDR, height - 2) == crate::tagged::NULL {
            self.lemma_capped_populated(height - 1);
        } else if height >= 2 {
            self.lemma_pred(height - 2, 0);
            self.lemma_end(height - 2, 0);
            self.lemma_populated_at(crate::node::HEIGHT as int, height - 2);
        }
    }

    /// The height of the tower that holds `key`.
    pub open(crate) spec fn height_of(self, key: K) -> usize {
        self.mem.node(self.holder(key)).spec_height()
    }

    /// A node with `key` is among the retired: it is in memory still, and
    /// no level links it.
    pub open(crate) spec fn retires(self, key: K) -> bool {
        exists|a: usize|
            self.garbage.holds(a) && self.mem.live(a) && self.mem.key(a) == key && self.mem.node(
                a,
            ).spec_refs() == 0
    }

    /// The tag of the node at position `i` of level 0.
    pub open(crate) spec fn tag_at(self, i: int) -> usize {
        self.mem.tag(self.mem.chain(0)[i], 0)
    }

    /// Number of nodes that have been retired and not yet freed.
    pub open(crate) spec fn retired_count(self) -> nat {
        self.garbage.retired@.len()
    }

    /// The reference stands on a node that has not been freed.
    pub open(crate) spec fn has_node(self, r: crate::reclaim::NodeRef) -> bool {
        self.mem.live(r.addr)
    }

    /// The node that the reference stands on.
    pub open(crate) spec fn node_of(self, r: crate::reclaim::NodeRef) -> crate::node::Node<K, V> {
        self.mem.node(r.addr)
    }

    /// The node that `r` stands on is in memory, with the key, the value,
    /// the height, the removed flag and the tag that it had in `old`; and
    /// if it carries no tag, it is at level 0 exactly if it was.
    pub open spec fn node_kept(self, old: Self, r: crate::reclaim::NodeRef) -> bool {
        &&& self.has_node(r)
        &&& self.node_of(r).key == old.node_of(r).key
        &&& self.node_of(r).val == old.node_of(r).val
        &&& self.node_of(r).spec_height() == old.node_of(r).spec_height()
        &&& self.node_of(r).spec_removed() == old.node_of(r).spec_removed()
        &&& self.node_of(r).tag(0) == old.node_of(r).tag(0)
        &&& (old.node_of(r).tag(0) == 0 ==> (self.links(r, 0) <==> old.links(r, 0)))
    }

    /// Every node that was in memory is kept.
    pub open spec fn keeps_nodes(self, old: Self) -> bool {
        forall|r: crate::reclaim::NodeRef| old.has_node(r) ==> #[trigger] self.node_kept(old, r)
    }

    /// Every node but the one that `r` stands on is what it was in `old`,
    /// key, value, state word and levels; none has come and none has gone.
    pub open spec fn same_but(self, old: Self, r: crate::reclaim::NodeRef) -> bool {
        forall|s: crate::reclaim::NodeRef|
            s.addr != r.addr ==> (#[trigger] self.has_node(s) <==> old.has_node(s)) && (old.has_node(
                s,
            ) ==> self.node_of(s) == old.node_of(s))
    }

    /// No resurrection: every node of `old` that is still in memory has the
    /// key, the value and the height that it had, and is marked removed if
    /// it was.
    pub open spec fn marks_stay(self, old: Self) -> bool {
        forall|r: crate::reclaim::NodeRef|
            old.has_node(r) && #[trigger] self.has_node(r) ==> self.node_of(r).key == old.node_of(
                r,
            ).key && self.node_of(r).val == old.node_of(r).val && self.node_of(r).spec_height()
                == old.node_of(r).spec_height() && (old.node_of(r).spec_removed() ==> self.node_of(
                r,
            ).spec_removed())
    }

    /// Every node of `self` but the one at `x` was a node of `old`, with
    /// the key, the value and the height that it has, and it is marked
    /// removed if it was.
    pub open(crate) spec fn descends(self, old: Self, x: usize) -> bool {
        forall|a: usize|
            #![trigger self.mem.live(a)]
            a != x && self.mem.live(a) ==> old.mem.live(a) && self.mem.key(a) == old.mem.key(a)
                && self.mem.node(a).val == old.mem.node(a).val && self.mem.node(a).spec_height()
                == old.mem.node(a).spec_height() && (old.mem.node(a).spec_removed()
                ==> self.mem.node(a).spec_removed())
    }

    /// Descent goes on.
    pub(crate) proof fn lemma_descends_trans(self, mid: Self, old: Self, x: usize)
        requires
            mid.descends(old, x),
            self.descends(mid, x),
        ensures
            self.descends(old, x),
    {
        assert forall|a: usize| #![trigger self.mem.live(a)] a != x && self.mem.live(a) implies
            old.mem.live(a) && self.mem.key(a) == old.mem.key(a) && self.mem.node(a).val
            == old.mem.node(a).val && self.mem.node(a).spec_height() == old.mem.node(
            a,
        ).spec_height() && (old.mem.node(a).spec_removed() ==> self.mem.node(a).spec_removed()) by {
            assert(mid.mem.live(a));
        }
    }

    /// What keeps the nodes without a tag descends.
    pub(crate) proof fn lemma_kept_descends(self, old: Self, x: usize)
        requires
            old.inv(),
            self.kept(old),
        ensures
            self.descends(old, x),
    {
        assert forall|a: usize| #![trigger self.mem.live(a)] a != x && self.mem.live(a) implies
            old.mem.live(a) && self.mem.key(a) == old.mem.key(a) && self.mem.node(a).val
            == old.mem.node(a).val && self.mem.node(a).spec_height() == old.mem.node(
            a,
        ).spec_height() && (old.mem.node(a).spec_removed() ==> self.mem.node(a).spec_removed()) by {
            self.lemma_kept_node(old, a);
        }
    }

    /// A change to one node that keeps its key, value and height and takes
    /// no mark back descends.
    pub(crate) proof fn lemma_changed_descends(self, old: Self, t: usize, x: usize)
        requires
            self.mem.same_nodes_but(old.mem, t),
            t != x && self.mem.live(t) ==> old.mem.live(t) && self.mem.key(t) == old.mem.key(t)
                && self.mem.node(t).val == old.mem.node(t).val && self.mem.node(t).spec_height()
                == old.mem.node(t).spec_height() && (old.mem.node(t).spec_removed()
                ==> self.mem.node(t).spec_removed()),
        ensures
            self.descends(old, x),
    {
        assert forall|a: usize| #![trigger self.mem.live(a)] a != x && self.mem.live(a) implies
            old.mem.live(a) && self.mem.key(a) == old.mem.key(a) && self.mem.node(a).val
            == old.mem.node(a).val && self.mem.node(a).spec_height() == old.mem.node(
            a,
        ).spec_height() && (old.mem.node(a).spec_removed() ==> self.mem.node(a).spec_removed()) by {
            if a != t {
                assert(old.mem.live(a));
                assert(self.mem.node(a) == old.mem.node(a));
            }
        }
    }

    /// What descends with no exception descends with one.
    pub(crate) proof fn lemma_descends_but(self, old: Self, x: usize)
        requires
            self.descends(old, NULL),
        ensures
            self.descends(old, x),
    {
        assert forall|a: usize| #![trigger self.mem.live(a)] a != x && self.mem.live(a) implies
            old.mem.live(a) && self.mem.key(a) == old.mem.key(a) && self.mem.node(a).val
            == old.mem.node(a).val && self.mem.node(a).spec_height() == old.mem.node(
            a,
        ).spec_height() && (old.mem.node(a).spec_removed() ==> self.mem.node(a).spec_removed()) by {
            self.mem.lemma_live_addr(a);
        }
    }

    /// What descends from `old`, but for a node that `old` did not have,
    /// has brought no node back.
    pub(crate) proof fn lemma_descends_marks(self, old: Self, x: usize)
        requires
            self.descends(old, x),
            !old.mem.live(x),
        ensures
            self.marks_stay(old),
    {
        assert forall|r: crate::reclaim::NodeRef|
            old.has_node(r) && #[trigger] self.has_node(r) implies self.node_of(r).key
            == old.node_of(r).key && self.node_of(r).val == old.node_of(r).val && self.node_of(
            r,
        ).spec_height() == old.node_of(r).spec_height() && (old.node_of(r).spec_removed()
            ==> self.node_of(r).spec_removed()) by {
            assert(self.mem.live(r.addr));
            assert(r.addr != x);
        }
    }

    /// Every level links what it linked.
    pub open spec fn same_links(self, old: Self) -> bool {
        forall|r: crate::reclaim::NodeRef, l: int|
            0 <= l < crate::node::HEIGHT ==> (#[trigger] self.links(r, l)) == old.links(r, l)
    }

    /// Helping keeps the nodes.
    pub(crate) proof fn lemma_helped_nodes(self, old: Self)
        requires
            old.inv(),
            self.helped(old),
        ensures
            self.keeps_nodes(old),
    {
        assert forall|r: crate::reclaim::NodeRef| old.has_node(r) implies #[trigger] self.node_kept(
            old,
            r,
        ) by {
            self.lemma_helped_node(old, r.addr);
            self.lemma_helped_kept(old);
            self.lemma_kept_node(old, r.addr);
            old.mem.lemma_live_addr(r.addr);
            self.mem.lemma_live_addr(r.addr);
        }
    }

    /// The length is exact: it is the number of entries.
    pub open spec fn counted(self) -> bool {
        self.spec_len() == self.live_count()
    }

    /// An entry's node is live and carries no tag.
    pub(crate) proof fn lemma_present(self, a: usize)
        requires
            self.inv(),
            self.mem.linked(a, 0),
        ensures
            self.mem.live(a),
            self.mem.tag(a, 0) <= 1,
            self.mem.tag(a, 0) == 1 ==> self.mem.node(a).spec_removed(),
    {
        reveal(SkipList::inv);
        assert(self.mem.chain_ok(0));
        let i = choose|i: int| 0 <= i < self.mem.chain(0).len() && self.mem.chain(0)[i] == a;
        assert(self.mem.live(self.mem.chain(0)[i]));
        assert(self.mem.node_ok(a));
    }

    /// No two nodes of a level hold the same key.
    pub(crate) proof fn lemma_unique(self, a: usize, b: usize)
        requires
            total_order::<K>(),
            self.inv(),
            self.mem.linked(a, 0),
            self.mem.linked(b, 0),
            self.mem.key(a) == self.mem.key(b),
        ensures
            a == b,
    {
        reveal(SkipList::inv);
        assert(self.mem.chain_ok(0));
        let c = self.mem.chain(0);
        let i = choose|i: int| 0 <= i < c.len() && c[i] == a;
        let j = choose|j: int| 0 <= j < c.len() && c[j] == b;
        if i < j {
            lemma_lt_irrefl(self.mem.key(c[i]), self.mem.key(c[j]));
        } else if j < i {
            lemma_lt_irrefl(self.mem.key(c[j]), self.mem.key(c[i]));
        }
    }

    /// The entries are finitely many.
    pub(crate) proof fn lemma_finite(self)
        ensures
            self.present_set().finite(),
    {
        let c = self.mem.chain(0);
        vstd::seq_lib::seq_to_set_is_finite(c);
        assert(self.present_set().subset_of(c.to_set())) by {
            assert forall|a: usize| self.present_set().contains(a) implies c.to_set().contains(
                a,
            ) by {
                assert(c.contains(a));
            }
        }
        vstd::set_lib::lemma_set_subset_finite(c.to_set(), self.present_set());
    }

    /// The entry with key `k` is in the node that holds it.
    pub(crate) proof fn lemma_holder(self, a: usize)
        requires
            total_order::<K>(),
            self.inv(),
            self.present(a),
        ensures
            self.has_key(self.mem.key(a)),
            self.holder(self.mem.key(a)) == a,
            self.view().contains_key(self.mem.key(a)),
            self.view()[self.mem.key(a)] == self.mem.node(a).val,
    {
        let k = self.mem.key(a);
        let h = self.holder(k);
        self.lemma_unique(a, h);
    }

    /// Two lists with the same entries stand for the same map.
    pub(crate) proof fn lemma_view_same(self, old: Self)
        requires
            total_order::<K>(),
            old.inv(),
            self.inv(),
            forall|a: usize| self.present(a) <==> old.present(a),
            forall|a: usize|
                old.present(a) ==> self.mem.key(a) == old.mem.key(a) && self.mem.node(a).val
                    == old.mem.node(a).val,
        ensures
            self.view() == old.view(),
            self.present_set() == old.present_set(),
            self.live_count() == old.live_count(),
    {
        assert(self.present_set() =~= old.present_set());
        assert forall|k: K| self.has_key(k) <==> old.has_key(k) by {
            if self.has_key(k) {
                let a = self.holder(k);
                assert(old.present(a) && old.mem.key(a) == k);
            }
            if old.has_key(k) {
                let a = old.holder(k);
                assert(self.present(a) && self.mem.key(a) == k);
            }
        }
        assert forall|k: K| self.has_key(k) implies self.mem.node(self.holder(k)).val
            == old.mem.node(old.holder(k)).val by {
            let a = self.holder(k);
            assert(old.present(a) && old.mem.key(a) == k);
            old.lemma_holder(a);
        }
        assert(self.view() =~= old.view());
    }

    /// What keeps the nodes without a tag keeps the map.
    pub(crate) proof fn lemma_kept_view(self, old: Self)
        requires
            total_order::<K>(),
            old.inv(),
            self.inv(),
            self.kept(old),
        ensures
            self.view() == old.view(),
            self.present_set() == old.present_set(),
            self.live_count() == old.live_count(),
            old.mem.complete() ==> self.mem.complete(),
            self.mem.nodes@.len() == old.mem.nodes@.len(),
            old.clean() ==> self.clean(),
    {
        if old.clean() {
            assert forall|i: int| 0 <= i < self.mem.chain(0).len() implies self.mem.tag(
                #[trigger] self.mem.chain(0)[i],
                0,
            ) == 0 by {
                let a = self.mem.chain(0)[i];
                self.lemma_elem(0, i);
                self.lemma_kept_node(old, a);
                assert(old.mem.linked(a, 0));
                let j = choose|j: int| 0 <= j < old.mem.chain(0).len() && old.mem.chain(0)[j] == a;
                assert(old.mem.chain(0)[j] == a);
            }
        }
        assert forall|a: usize| self.present(a) <==> old.present(a) by {
            self.lemma_kept_node(old, a);
            if self.present(a) {
                self.lemma_present(a);
            }
            if old.present(a) {
                old.lemma_present(a);
            }
        }
        assert forall|a: usize| old.present(a) implies self.mem.key(a) == old.mem.key(a)
            && self.mem.node(a).val == old.mem.node(a).val by {
            self.lemma_kept_node(old, a);
            old.lemma_present(a);
        }
        self.lemma_view_same(old);
        if old.mem.complete() {
            assert forall|a: usize| #[trigger] self.mem.live(a) implies self.mem.tower_complete(
                a,
            ) by {
                self.lemma_kept_node(old, a);
                assert(old.mem.tower_complete(a));
            }
        }
        reveal(SkipList::kept);
    }

    /// Taking one entry away takes its key out of the map.
    pub(crate) proof fn lemma_view_drop(self, old: Self, x: usize)
        requires
            total_order::<K>(),
            old.inv(),
            self.inv(),
            old.present(x),
            forall|a: usize| self.present(a) <==> old.present(a) && a != x,
            forall|a: usize|
                old.present(a) && a != x ==> self.mem.key(a) == old.mem.key(a) && self.mem.node(
                    a,
                ).val == old.mem.node(a).val,
        ensures
            self.view() == old.view().remove(old.mem.key(x)),
            self.present_set() == old.present_set().remove(x),
            self.live_count() == old.live_count() - 1,
    {
        let kx = old.mem.key(x);
        assert(self.present_set() =~= old.present_set().remove(x));
        old.lemma_finite();
        assert(old.present_set().contains(x));
        assert forall|k: K| self.has_key(k) <==> (old.has_key(k) && k != kx) by {
            if self.has_key(k) {
                let a = self.holder(k);
                assert(old.present(a) && old.mem.key(a) == k);
                if k == kx {
                    old.lemma_unique(a, x);
                }
            }
            if old.has_key(k) && k != kx {
                let a = old.holder(k);
                assert(self.present(a) && self.mem.key(a) == k);
            }
        }
        assert forall|k: K| self.has_key(k) implies self.mem.node(self.holder(k)).val
            == old.mem.node(old.holder(k)).val by {
            let a = self.holder(k);
            assert(old.present(a) && old.mem.key(a) == k);
            old.lemma_holder(a);
        }
        assert(self.view() =~= old.view().remove(kx));
    }

    /// Adding one entry puts its key and value into the map.
    pub(crate) proof fn lemma_view_add(self, old: Self, x: usize)
        requires
            total_order::<K>(),
            old.inv(),
            self.inv(),
            !old.present(x),
            self.present(x),
            forall|a: usize| self.present(a) <==> old.present(a) || a == x,
            forall|a: usize|
                old.present(a) ==> self.mem.key(a) == old.mem.key(a) && self.mem.node(a).val
                    == old.mem.node(a).val,
        ensures
            self.view() == old.view().insert(self.mem.key(x), self.mem.node(x).val),
            !old.view().contains_key(self.mem.key(x)),
            self.present_set() == old.present_set().insert(x),
            self.live_count() == old.live_count() + 1,
    {
        let kx = self.mem.key(x);
        assert(self.present_set() =~= old.present_set().insert(x));
        old.lemma_finite();
        assert(!old.present_set().contains(x));
        if old.has_key(kx) {
            let a = old.holder(kx);
            assert(self.present(a));
            self.lemma_unique(a, x);
        }
        assert forall|k: K| self.has_key(k) <==> (old.has_key(k) || k == kx) by {
            if self.has_key(k) {
                let a = self.holder(k);
                if a != x {
                    assert(old.present(a) && old.mem.key(a) == k);
                }
            }
            if old.has_key(k) {
                let a = old.holder(k);
                assert(self.present(a) && self.mem.key(a) == k);
            }
        }
        assert forall|k: K| self.has_key(k) implies self.mem.node(self.holder(k)).val == (if k
            == kx {
            self.mem.node(x).val
        } else {
            old.mem.node(old.holder(k)).val
        }) by {
            let a = self.holder(k);
            if k == kx {
                self.lemma_unique(a, x);
            } else {
                assert(old.present(a) && old.mem.key(a) == k);
                old.lemma_holder(a);
            }
        }
        assert(self.view() =~= old.view().insert(kx, self.mem.node(x).val));
    }
}

} // verus!
