use vstd::prelude::*;
use crate::height::{advance, propose, proposed_height, xorshift, ListState};
use crate::memory::{Memory, HEAD_ADDR};
use crate::node::{GeneratesHeight, HEIGHT};
use crate::order::{key_eq, key_lt, lemma_lt_irrefl, lemma_lt_total, lemma_lt_trans, lt, total_order};
use crate::reclaim::{addr_or_null, lemma_pushed, ptr_or_null, Can, NodeRef};
use crate::tagged::NULL;

verus! {

/// What a search hands back: for every level the predecessor of the key and
/// the node after it, and the node that was looked for, if it is there.
pub struct SearchResult {
    pub prev: Vec<(NodeRef, Option<NodeRef>)>,
    pub target: Option<NodeRef>,
    /// For every level, the position that brackets the key.
    pub pos: Ghost<Seq<int>>,
    /// For every level, the position at which the search entered it.
    pub from: Ghost<Seq<int>>,
}

/// The predecessor that was recorded one level above `l`, from which the
/// search enters level `l`; the head for the top level.
pub open spec fn above(prev: Seq<(NodeRef, Option<NodeRef>)>, l: int) -> usize {
    if 0 <= l + 1 < prev.len() {
        prev[l + 1].0.addr
    } else {
        HEAD_ADDR
    }
}

/// Every recorded successor that is there has an address: `None` stands
/// for the end of a level, and nothing else does.
pub open spec fn pairs_sound(prev: Seq<(NodeRef, Option<NodeRef>)>) -> bool {
    forall|l: int|
        0 <= l < prev.len() ==> ((#[trigger] prev[l]).1.is_some() ==> prev[l].1.unwrap().addr
            != NULL)
}

/// What a search looks for: a key that the caller holds, or the key of a
/// node of the list.
pub enum Probe<'a, K> {
    Key(&'a K),
    Node(usize),
}

/// An ordered map from keys to values, kept as a skip list: every node
/// carries a tower of forward pointers, level 0 links all nodes in key order
/// and each higher level links a sparser selection of them.
///
/// Removal is logical first and physical after: a node is marked removed,
/// each of its pointers is tagged, and then it is unlinked level by level.
/// Whoever meets a tagged pointer on a search helps to unlink the node.
/// A node that no level links any more is retired and freed once no
/// reference protects it.
pub struct SkipList<K, V> {
    pub(crate) mem: Memory<K, V>,
    pub(crate) state: ListState,
    pub(crate) garbage: Can,
}

impl<K: Ord, V> SkipList<K, V> {
    /// What holds of a retired node: it is live until it is freed, it is
    /// tagged, and no level links it.
    pub open(crate) spec fn retired_ok(self, a: usize) -> bool {
        &&& self.mem.live(a)
        &&& self.mem.tag(a, 0) == 1
        &&& self.mem.node(a).spec_refs() == 0
    }

    /// The structural invariant: that of the memory; no level at or above
    /// the greatest height drawn links a node; every retired node is
    /// retired once and linked nowhere.
    #[verifier::opaque]
    pub open(crate) spec fn inv(self) -> bool {
        &&& self.mem.inv()
        &&& 1 <= self.state.max_height <= HEIGHT
        &&& (forall|l: int|
            self.state.max_height <= l < HEIGHT ==> (#[trigger] self.mem.chain(l)).len() == 0)
        &&& self.garbage.retired@.no_duplicates()
        &&& (forall|i: int|
            0 <= i < self.garbage.retired@.len() ==> self.retired_ok(
                #[trigger] self.garbage.retired@[i],
            ))
    }

    /// The height that the next draw yields.
    pub open(crate) spec fn next_height(self) -> int {
        self.mem.capped(proposed_height(xorshift(self.state.seed)) as int)
    }

    /// Draws the height of a new tower: advances the seed, takes its
    /// proposal, caps it at one above the highest populated level of the
    /// head, and raises the greatest height drawn to it.
    pub(crate) fn draw_height(&mut self) -> (height: usize)
        requires
            old(self).mem.head.levels@.len() == HEIGHT,
        ensures
            1 <= height <= HEIGHT,
            height == old(self).next_height(),
            final(self).mem == old(self).mem,
            final(self).garbage == old(self).garbage,
            final(self).state.len == old(self).state.len,
            final(self).state.seed == xorshift(old(self).state.seed),
            final(self).state.max_height == if height > old(self).state.max_height {
                height
            } else {
                old(self).state.max_height
            },
    {
        let seed = advance(self.state.seed);
        self.state.seed = seed;
        let mut height = propose(seed);
        while height >= 2 && self.mem.load(HEAD_ADDR, height - 2).0 == NULL
            invariant
                1 <= height <= HEIGHT,
                self.mem == old(self).mem,
                self.mem.head.levels@.len() == HEIGHT,
                self.mem.capped(height as int) == old(self).next_height(),
            decreases height,
        {
            height -= 1;
        }
        if height > self.state.max_height {
            self.state.max_height = height;
        }
        height
    }

    /// Number of entries.
    pub open(crate) spec fn spec_len(self) -> usize {
        self.state.len
    }

    /// The greatest height drawn so far.
    pub open(crate) spec fn max_height(self) -> usize {
        self.state.max_height
    }

    /// The seed of the height stream.
    pub open(crate) spec fn seed(self) -> u64 {
        self.state.seed
    }

    /// Hands the node at `addr` to the reclamation.
    pub(crate) fn retire_node(&mut self, addr: usize)
        ensures
            final(self).mem == old(self).mem,
            final(self).state == old(self).state,
            final(self).garbage.hazards@ == old(self).garbage.hazards@,
            final(self).garbage.retired@ == old(self).garbage.retired@.push(addr),
    {
        self.garbage.retire(addr);
    }

    /// Takes one reference from the node and retires it when none is left.
    /// Returns `None` when the node was retired.
    pub(crate) fn sub_ref(&mut self, node: &NodeRef) -> (r: Option<()>)
        requires
            old(self).mem.live(node.addr),
            old(self).mem.node(node.addr).spec_refs() > 0,
        ensures
            final(self).state == old(self).state,
            final(self).garbage.hazards@ == old(self).garbage.hazards@,
            final(self).mem.chains == old(self).mem.chains,
            final(self).mem.same_elsewhere(old(self).mem, node.addr),
            final(self).mem.node(node.addr).key == old(self).mem.node(node.addr).key,
            final(self).mem.node(node.addr).val == old(self).mem.node(node.addr).val,
            final(self).mem.node(node.addr).levels == old(self).mem.node(node.addr).levels,
            final(self).mem.node(node.addr).spec_height() == old(self).mem.node(
                node.addr,
            ).spec_height(),
            final(self).mem.node(node.addr).spec_removed() == old(self).mem.node(
                node.addr,
            ).spec_removed(),
            final(self).mem.node(node.addr).spec_refs() == old(self).mem.node(node.addr).spec_refs()
                - 1,
            r.is_none() <==> old(self).mem.node(node.addr).spec_refs() == 1,
            r.is_none() ==> final(self).garbage.retired@ == old(self).garbage.retired@.push(
                node.addr,
            ),
            r.is_some() ==> final(self).garbage.retired@ == old(self).garbage.retired@,
    {
        let left = self.mem.node_mut(node.addr).try_sub_ref();
        match left {
            Ok(0) => {
                self.retire_node(node.as_ptr());
                None
            },
            _ => Some(()),
        }
    }

    /// `self` is `old` after the node at position `j` of level `l` has been
    /// unlinked from that level, and retired if no level links it any more.
    #[verifier::opaque]
    pub open(crate) spec fn unlinked(self, old: Self, l: int, j: int) -> bool {
        &&& old.mem.spliced_out(self.mem, l, j)
        &&& self.state == old.state
        &&& self.garbage.hazards@ == old.garbage.hazards@
        &&& self.garbage.retired@ == if old.mem.node(old.mem.chain(l)[j]).spec_refs() == 1 {
            old.garbage.retired@.push(old.mem.chain(l)[j])
        } else {
            old.garbage.retired@
        }
    }

    /// `self` holds what `old` holds.
    #[verifier::opaque]
    pub open(crate) spec fn same(self, old: Self) -> bool {
        &&& self.mem.unchanged(old.mem)
        &&& self.state == old.state
        &&& self.garbage.hazards@ == old.garbage.hazards@
        &&& self.garbage.retired@ == old.garbage.retired@
    }

    /// Unlinks the tagged node `curr` from `level`: swaps the pointer of
    /// `prev` at that level from `curr` to `next`, the node that `curr`
    /// points to, and takes the reference that the link stood for. `prev` is
    /// the head or a node of the level.
    ///
    /// The swap succeeds exactly if the pointer of `prev` holds `curr`
    /// without a tag, which makes `prev` the predecessor of `curr`. It
    /// fails, and nothing changes, where `prev` is tagged itself or points
    /// elsewhere.
    pub(crate) fn unlink_level(
        &mut self,
        prev: &NodeRef,
        curr: NodeRef,
        next: Option<NodeRef>,
        level: usize,
        Ghost(j): Ghost<int>,
    ) -> (r: Result<Option<NodeRef>, ()>)
        requires
            total_order::<K>(),
            old(self).inv(),
            level < HEIGHT,
            prev.addr == HEAD_ADDR || old(self).mem.linked(prev.addr, level as int),
            old(self).mem.live(curr.addr),
            old(self).mem.tag(curr.addr, 0) == 1,
            level < old(self).mem.tower(curr.addr).len(),
            addr_or_null(next) == old(self).mem.next(curr.addr, level as int),
            old(self).mem.linked(curr.addr, level as int) ==> 0 <= j < old(self).mem.chain(
                level as int,
            ).len() && curr.addr == old(self).mem.chain(level as int)[j],
        ensures
            old(self).mem.valid(prev.addr),
            level < old(self).mem.tower(prev.addr).len(),
            r.is_ok() <==> old(self).mem.tower(prev.addr)[level as int] == (curr.addr, 0usize),
            r.is_ok() ==> r == Ok::<Option<NodeRef>, ()>(next),
            r.is_ok() ==> old(self).mem.linked(curr.addr, level as int)
                && prev.addr == old(self).mem.pred_at(level as int, j),
            r.is_err() ==> final(self).same(*old(self)),
            r.is_ok() ==> final(self).unlinked(*old(self), level as int, j),
            final(self).inv(),
    {
        let next_ptr = ptr_or_null(&next);
        let ghost before = self.mem;
        let ghost l = level as int;
        proof {
            old(self).lemma_at_level(prev.addr, l);
            reveal(SkipList::inv);
            reveal(SkipList::unlinked);
            reveal(SkipList::same);
            before.lemma_live_addrs();
            assert(before.chain_ok(l));
            assert(before.node_ok(curr.addr));
            if before.tower(prev.addr)[l] == (curr.addr, 0usize) {
                old(self).lemma_points_to(prev.addr, l, curr.addr, j);
                assert(before.linked(curr.addr, l));
                if before.node(curr.addr).spec_refs() == 0 {
                    before.lemma_count_zero(curr.addr, HEIGHT as int);
                }
            }
        }
        match self.mem.compare_exchange(prev.addr, level, curr.addr, next_ptr) {
            Ok(_) => {
                let ghost mid = self.mem;
                proof {
                    mid.lemma_live_addrs();
                }
                let left = self.sub_ref(&curr);
                let ghost last = self.mem;
                proof {
                    self.mem.chains@ = before.chains@.update(l, before.chain(l).remove(j));
                }
                proof {
                    self.mem.lemma_same_nodes(last);
                    before.lemma_spliced_out_intro(mid, self.mem, l, j);
                    before.lemma_splice_out(self.mem, l, j);
                    self.lemma_inv_after_splice_out(*old(self), l, j);
                }
                Ok(next)
            },
            Err(_) => {
                proof {
                    self.mem.lemma_unchanged_intro(before, prev.addr);
                    before.lemma_unchanged_inv(self.mem);
                    self.lemma_inv_unchanged(*old(self));
                }
                Err(())
            },
        }
    }

    /// The head and every node of a level have a pointer at that level.
    pub(crate) proof fn lemma_at_level(self, a: usize, l: int)
        requires
            self.inv(),
            0 <= l < HEIGHT,
            a == HEAD_ADDR || self.mem.linked(a, l),
        ensures
            self.mem.valid(a),
            a != NULL,
            l < self.mem.tower(a).len(),
            a != HEAD_ADDR ==> self.mem.live(a) && self.mem.chain(l)[self.mem.chain(l).index_of(a)]
                == a && 0 <= self.mem.chain(l).index_of(a) < self.mem.chain(l).len(),
    {
        if a == HEAD_ADDR {
            self.lemma_pred(l, 0);
        } else {
            let i = self.mem.chain(l).index_of(a);
            self.lemma_elem(l, i);
        }
    }

    /// A pointer of the head or of a node of a level that holds a node
    /// without a tag comes from that node's predecessor at the level.
    pub(crate) proof fn lemma_points_to(self, a: usize, l: int, x: usize, j: int)
        requires
            total_order::<K>(),
            self.inv(),
            0 <= l < HEIGHT,
            a == HEAD_ADDR || self.mem.linked(a, l),
            x != NULL,
            self.mem.next(a, l) == x,
            self.mem.linked(x, l) ==> 0 <= j < self.mem.chain(l).len() && x == self.mem.chain(l)[j],
        ensures
            self.mem.linked(x, l),
            0 <= j < self.mem.chain(l).len(),
            x == self.mem.chain(l)[j],
            a == self.mem.pred_at(l, j),
    {
        reveal(SkipList::inv);
        assert(self.mem.chain_ok(l));
        self.mem.lemma_chain_distinct(l);
        let c = self.mem.chain(l);
        if a == HEAD_ADDR {
            self.lemma_pred(l, 0);
            self.lemma_end(l, 0);
            assert(c[0] == x);
        } else {
            let i = c.index_of(a);
            self.lemma_elem(l, i);
            self.lemma_end(l, i + 1);
            assert(c[i + 1] == x);
        }
    }

    /// The list's invariant holds of a list in which nothing has changed.
    pub(crate) proof fn lemma_inv_unchanged(self, old: Self)
        requires
            old.inv(),
            self.mem.inv(),
            self.mem.unchanged(old.mem),
            self.state.max_height == old.state.max_height,
            self.garbage.retired@ == old.garbage.retired@,
        ensures
            self.inv(),
    {
        reveal(SkipList::inv);
        old.mem.lemma_live_addrs();
        assert forall|k: int| self.state.max_height <= k < HEIGHT implies (
        #[trigger] self.mem.chain(k)).len() == 0 by {
            assert(old.mem.chain(k).len() == 0);
        }
        assert forall|i: int| 0 <= i < self.garbage.retired@.len() implies self.retired_ok(
            #[trigger] self.garbage.retired@[i],
        ) by {
            let a = old.garbage.retired@[i];
            assert(old.retired_ok(a));
            assert(self.mem.node_same(old.mem, a));
            assert(old.mem.node_ok(a));
        }
    }

    /// The list's invariant holds again once a tagged node has left a level,
    /// lost a reference, and been retired if that was its last.
    pub(crate) proof fn lemma_inv_after_splice_out(self, old: Self, l: int, j: int)
        requires
            total_order::<K>(),
            old.inv(),
            0 <= l < HEIGHT,
            0 <= j < old.mem.chain(l).len(),
            old.mem.tag(old.mem.chain(l)[j], 0) == 1,
            old.mem.spliced_out(self.mem, l, j),
            self.mem.inv(),
            self.state == old.state,
            self.garbage.retired@ == if old.mem.node(old.mem.chain(l)[j]).spec_refs() == 1 {
                old.garbage.retired@.push(old.mem.chain(l)[j])
            } else {
                old.garbage.retired@
            },
        ensures
            self.inv(),
    {
        reveal(SkipList::inv);
        let x = old.mem.chain(l)[j];
        let r0 = old.garbage.retired@;
        let r1 = self.garbage.retired@;
        old.mem.lemma_live_addrs();
        assert(old.mem.chain_ok(l));
        assert(old.mem.live(x));
        assert(old.mem.node_ok(x));
        assert(old.mem.linked(x, l));
        assert forall|k: int| self.state.max_height <= k < HEIGHT implies (
        #[trigger] self.mem.chain(k)).len() == 0 by {
            assert(old.mem.chain(k).len() == 0);
            if k != l {
                assert(self.mem.chain(k) == old.mem.chain(k));
            }
        }
        assert(!r0.contains(x)) by {
            if r0.contains(x) {
                let i = choose|i: int| 0 <= i < r0.len() && r0[i] == x;
                assert(old.retired_ok(r0[i]));
                old.mem.lemma_count_zero(x, HEIGHT as int);
            }
        }
        assert forall|i: int| 0 <= i < r1.len() implies self.retired_ok(#[trigger] r1[i]) by {
            if i < r0.len() {
                assert(r1[i] == r0[i]);
                assert(old.retired_ok(r0[i]));
                assert(r0.contains(r0[i]));
                assert(self.mem.node_same(old.mem, r0[i]));
                assert(old.mem.node_ok(r0[i]));
            } else {
                assert(r1[i] == x);
            }
        }
        assert(r1.no_duplicates()) by {
            assert forall|a: int, b: int|
                0 <= a < r1.len() && 0 <= b < r1.len() && a != b implies r1[a] != r1[b] by {
                if a < r0.len() && b < r0.len() {
                    assert(r0[a] != r0[b]);
                } else if a < r0.len() {
                    assert(r0.contains(r0[a]));
                } else {
                    assert(r0.contains(r0[b]));
                }
            }
        }
    }

    /// `self` has kept what `old` held in nodes without a tag: each of them
    /// is live, is what it was, has the count it had and is linked where it
    /// was. A tagged node may have left levels, and may have been freed; no
    /// node has come, none has been linked anywhere new, and nothing has
    /// changed its contents or marks. The greatest height and the seed are
    /// the same, and what was protected still is.
    #[verifier::opaque]
    pub open(crate) spec fn kept(self, old: Self) -> bool {
        &&& self.state.max_height == old.state.max_height
        &&& self.state.seed == old.state.seed
        &&& self.mem.nodes@.len() == old.mem.nodes@.len()
        &&& (forall|a: usize|
            #![trigger self.mem.live(a)]
            self.mem.live(a) ==> old.mem.live(a) && self.mem.node_same_but_refs(old.mem, a))
        &&& (forall|a: usize|
            #![trigger self.mem.node(a)]
            #![trigger old.mem.live(a)]
            old.mem.live(a) && old.mem.tag(a, 0) == 0 ==> self.mem.live(a) && self.mem.node(
                a,
            ).spec_refs() == old.mem.node(a).spec_refs())
        &&& (forall|a: usize, k: int|
            #![trigger self.mem.linked(a, k)]
            #![trigger old.mem.linked(a, k)]
            0 <= k < HEIGHT ==> (self.mem.linked(a, k) ==> old.mem.linked(a, k)) && (old.mem.linked(
                a,
                k,
            ) && old.mem.tag(a, 0) == 0 ==> self.mem.linked(a, k)))
    }

    /// `self` is `old` after tagged nodes have been unlinked from levels and
    /// nothing else: what `kept` says; no node has been freed and the length
    /// is the same; no count has gone up; and a node is among the retired
    /// exactly if it was, or if its count has gone from above 0 to 0.
    #[verifier::opaque]
    pub open(crate) spec fn helped(self, old: Self) -> bool {
        &&& self.kept(old)
        &&& self.state.len == old.state.len
        &&& (forall|a: usize| #[trigger] old.mem.live(a) ==> self.mem.live(a))
        &&& (forall|a: usize|
            #![trigger self.mem.node(a)]
            old.mem.live(a) ==> self.mem.node(a).spec_refs() <= old.mem.node(a).spec_refs())
        &&& (forall|a: usize|
            #![trigger self.garbage.holds(a)]
            #![trigger old.garbage.holds(a)]
            self.garbage.holds(a) <==> old.garbage.holds(a) || (old.mem.live(a) && old.mem.node(
                a,
            ).spec_refs() > 0 && self.mem.node(a).spec_refs() == 0))
    }

    /// Unlinking one tagged node from one level keeps.
    pub(crate) proof fn lemma_kept_step(self, cur: Self, l: int, j: int)
        requires
            total_order::<K>(),
            cur.inv(),
            0 <= l < HEIGHT,
            0 <= j < cur.mem.chain(l).len(),
            cur.mem.tag(cur.mem.chain(l)[j], 0) == 1,
            self.unlinked(cur, l, j),
        ensures
            self.helped(cur),
    {
        reveal(SkipList::kept);
        reveal(SkipList::helped);
        reveal(SkipList::inv);
        reveal(SkipList::unlinked);
        let x = cur.mem.chain(l)[j];
        cur.mem.lemma_live_addrs();
        assert(cur.mem.chain_ok(l));
        cur.mem.lemma_chain_distinct(l);
        assert(cur.mem.live(x));
        assert forall|a: usize| #[trigger] self.mem.live(a) implies cur.mem.live(a)
            && self.mem.node_same_but_refs(cur.mem, a) by {
            if a != x {
                assert(self.mem.node_same(cur.mem, a));
            }
        }
        assert forall|a: usize|
            #![trigger self.mem.node(a)]
            #![trigger cur.mem.live(a)]
            cur.mem.live(a) && cur.mem.tag(a, 0) == 0 implies self.mem.live(a) && self.mem.node(
            a,
        ).spec_refs() == cur.mem.node(a).spec_refs() by {
            assert(a != x);
            assert(self.mem.node_same(cur.mem, a));
        }
        assert forall|a: usize, k: int| 0 <= k < HEIGHT implies (#[trigger] self.mem.linked(a, k)
            ==> cur.mem.linked(a, k)) && (cur.mem.linked(a, k) && cur.mem.tag(a, 0) == 0
            ==> self.mem.linked(a, k)) by {
            if k == l {
                crate::shape::lemma_remove_contains(cur.mem.chain(l), j, a);
            } else {
                assert(self.mem.chain(k) == cur.mem.chain(k));
            }
        }
        assert forall|a: usize| #[trigger] cur.mem.live(a) implies self.mem.live(a) by {
            if a != x {
                assert(self.mem.node_same(cur.mem, a));
            }
        }
        assert forall|a: usize|
            #![trigger self.mem.node(a)]
            cur.mem.live(a) implies self.mem.node(a).spec_refs() <= cur.mem.node(
            a,
        ).spec_refs() by {
            if a != x {
                assert(self.mem.node_same(cur.mem, a));
            }
        }
        assert(cur.mem.node_ok(x));
        assert(cur.mem.linked(x, l));
        if cur.mem.node(x).spec_refs() == 0 {
            cur.mem.lemma_count_zero(x, HEIGHT as int);
        }
        let r0 = cur.garbage.retired@;
        let r1 = self.garbage.retired@;
        assert forall|a: usize|
            #![trigger self.garbage.holds(a)]
            #![trigger cur.garbage.holds(a)]
            self.garbage.holds(a) <==> cur.garbage.holds(a) || (cur.mem.live(a) && cur.mem.node(
                a,
            ).spec_refs() > 0 && self.mem.node(a).spec_refs() == 0) by {
            if a != x && cur.mem.live(a) {
                assert(self.mem.node_same(cur.mem, a));
            }
            if r0.contains(a) {
                let i = choose|i: int| 0 <= i < r0.len() && r0[i] == a;
                assert(r1[i] == a);
            }
            if r1.contains(a) && !r0.contains(a) {
                let i = choose|i: int| 0 <= i < r1.len() && r1[i] == a;
                if i < r0.len() {
                    assert(r0[i] == a);
                }
            }
            if r1 != r0 {
                assert(r1[r0.len() as int] == x);
            }
            if r0.contains(x) {
                let i = choose|i: int| 0 <= i < r0.len() && r0[i] == x;
                assert(cur.retired_ok(r0[i]));
            }
            if cur.garbage.holds(a) && !cur.mem.live(a) {
                let i = choose|i: int| 0 <= i < r0.len() && r0[i] == a;
                assert(cur.retired_ok(r0[i]));
            }
        }
    }

    /// Keeping is transitive.
    pub(crate) proof fn lemma_kept_trans(self, mid: Self, old: Self)
        requires
            old.inv(),
            mid.kept(old),
            self.kept(mid),
        ensures
            self.kept(old),
    {
        reveal(SkipList::kept);
        reveal(SkipList::inv);
        old.mem.lemma_live_addrs();
        assert forall|a: usize| #[trigger] self.mem.live(a) implies old.mem.live(a)
            && self.mem.node_same_but_refs(old.mem, a) by {
            assert(mid.mem.live(a));
            assert(mid.mem.node_same_but_refs(old.mem, a));
            assert(self.mem.node_same_but_refs(mid.mem, a));
            assert forall|k: int| 0 <= k < old.mem.tower(a).len() implies #[trigger] self.mem.tag(
                a,
                k,
            ) == old.mem.tag(a, k) by {
                assert(mid.mem.tag(a, k) == old.mem.tag(a, k));
            }
        }
        assert forall|a: usize|
            #![trigger self.mem.node(a)]
            #![trigger old.mem.live(a)]
            old.mem.live(a) && old.mem.tag(a, 0) == 0 implies self.mem.live(a) && self.mem.node(
            a,
        ).spec_refs() == old.mem.node(a).spec_refs() by {
            assert(mid.mem.live(a));
            assert(old.mem.node_ok(a));
            assert(mid.mem.node_same_but_refs(old.mem, a));
            assert(mid.mem.tag(a, 0) == old.mem.tag(a, 0));
            assert(mid.mem.node(a).spec_refs() == old.mem.node(a).spec_refs());
        }
        assert forall|a: usize, k: int| 0 <= k < HEIGHT implies (#[trigger] self.mem.linked(a, k)
            ==> old.mem.linked(a, k)) && (old.mem.linked(a, k) && old.mem.tag(a, 0) == 0
            ==> self.mem.linked(a, k)) by {
            if self.mem.linked(a, k) {
                assert(mid.mem.linked(a, k));
            }
            if old.mem.linked(a, k) && old.mem.tag(a, 0) == 0 {
                assert(mid.mem.linked(a, k));
                assert(old.mem.chain_ok(k));
                let i = choose|i: int| 0 <= i < old.mem.chain(k).len() && old.mem.chain(k)[i] == a;
                assert(old.mem.live(old.mem.chain(k)[i]));
                assert(old.mem.node_ok(a));
                assert(mid.mem.live(a));
                assert(mid.mem.node_same_but_refs(old.mem, a));
                assert(mid.mem.tag(a, 0) == old.mem.tag(a, 0));
            }
        }
    }

    /// Helping keeps.
    pub(crate) proof fn lemma_helped_kept(self, old: Self)
        requires
            self.helped(old),
        ensures
            self.kept(old),
            self.state.len == old.state.len,
    {
        reveal(SkipList::helped);
    }

    /// What keeping says of a node that is still live: it was live, with the
    /// key, value, height, flag and tag that it has.
    pub(crate) proof fn lemma_kept_node(self, old: Self, a: usize)
        requires
            old.inv(),
            self.kept(old),
        ensures
            self.mem.live(a) ==> old.mem.live(a),
            old.mem.live(a) && old.mem.tag(a, 0) == 0 ==> self.mem.live(a) && self.mem.node(
                a,
            ).spec_refs() == old.mem.node(a).spec_refs(),
            self.mem.live(a) ==> self.mem.key(a) == old.mem.key(a) && self.mem.node(a).val
                == old.mem.node(a).val && self.mem.node(a).spec_height() == old.mem.node(
                a,
            ).spec_height() && self.mem.node(a).spec_removed() == old.mem.node(a).spec_removed()
                && self.mem.tag(a, 0) == old.mem.tag(a, 0),
            forall|k: int|
                0 <= k < HEIGHT ==> (#[trigger] self.mem.linked(a, k) ==> old.mem.linked(a, k)),
            old.mem.live(a) && old.mem.tag(a, 0) == 0 ==> forall|k: int|
                0 <= k < HEIGHT ==> (#[trigger] self.mem.linked(a, k) <==> old.mem.linked(a, k)),
            self.state.max_height == old.state.max_height,
            self.state.seed == old.state.seed,
    {
        reveal(SkipList::kept);
        reveal(SkipList::inv);
        if self.mem.live(a) {
            assert(self.mem.node_same_but_refs(old.mem, a));
            assert(old.mem.node_ok(a));
            old.mem.lemma_live_addr(a);
        }
    }

    /// Unlinking one tagged node from one level is a step of helping.
    pub(crate) proof fn lemma_helped_step(self, old: Self, cur: Self, l: int, j: int)
        requires
            total_order::<K>(),
            old.inv(),
            cur.inv(),
            cur.helped(old),
            0 <= l < HEIGHT,
            0 <= j < cur.mem.chain(l).len(),
            cur.mem.tag(cur.mem.chain(l)[j], 0) == 1,
            self.unlinked(cur, l, j),
        ensures
            self.helped(old),
    {
        self.lemma_kept_step(cur, l, j);
        self.lemma_helped_trans(cur, old);
    }

    /// Helping is reflexive.
    pub(crate) proof fn lemma_helped_refl(self)
        requires
            self.inv(),
        ensures
            self.helped(self),
            self.kept(self),
    {
        reveal(SkipList::helped);
        reveal(SkipList::kept);
        reveal(SkipList::inv);
        assert forall|a: usize| #[trigger]
            self.mem.live(a) implies self.mem.node_same_but_refs(self.mem, a) by {}
    }

    /// Protecting further addresses is no change.
    pub open(crate) spec fn guarded(self, old: Self) -> bool {
        &&& self.mem == old.mem
        &&& self.state == old.state
        &&& self.garbage.retired@ == old.garbage.retired@
        &&& (forall|a: usize| #[trigger] old.garbage.protects(a) ==> self.garbage.protects(a))
    }

    /// Reads the pointer of `a` at level `l` and protects the address in it.
    pub(crate) fn protect_next(&mut self, a: usize, l: usize) -> (r: Option<NodeRef>)
        requires
            old(self).mem.valid(a),
            l < old(self).mem.tower(a).len(),
        ensures
            addr_or_null(r) == old(self).mem.next(a, l as int),
            final(self).guarded(*old(self)),
            r.is_some() ==> r.unwrap().addr != NULL && final(self).garbage.protects(
                r.unwrap().addr,
            ),
    {
        let ghost h0 = self.garbage.hazards@;
        let r = NodeRef::from_maybe_tagged(self.mem.cell(a, l), &mut self.garbage);
        proof {
            if r.is_some() {
                lemma_pushed(h0, self.garbage.hazards@, r.unwrap().addr);
            }
        }
        r
    }

    /// Protects `addr` and hands out a reference to it.
    pub(crate) fn protect_raw(&mut self, addr: usize) -> (r: NodeRef)
        requires
            addr != NULL,
        ensures
            r.addr == addr,
            final(self).guarded(*old(self)),
            final(self).garbage.protects(addr),
    {
        let ghost h0 = self.garbage.hazards@;
        let r = NodeRef::from_raw(addr, &mut self.garbage);
        proof {
            lemma_pushed(h0, self.garbage.hazards@, addr);
        }
        r
    }

    /// A second reference to the node of `r`, with a protection of its own.
    pub(crate) fn clone_ref(&mut self, r: &NodeRef) -> (c: NodeRef)
        requires
            r.addr != NULL,
        ensures
            c.addr == r.addr,
            final(self).guarded(*old(self)),
            final(self).garbage.protects(r.addr),
    {
        let ghost h0 = self.garbage.hazards@;
        let c = r.duplicate(&mut self.garbage);
        proof {
            lemma_pushed(h0, self.garbage.hazards@, r.addr);
        }
        c
    }

    /// No node that a level links carries a tag: no removal is under way.
    pub open(crate) spec fn tagless(self) -> bool {
        forall|l: int, i: int|
            0 <= l < HEIGHT && 0 <= i < self.mem.chain(l).len() ==> self.mem.tag(
                #[trigger] self.mem.chain(l)[i],
                0,
            ) == 0
    }

    /// `self` is `old` in memory, counters and retired nodes; only what is
    /// protected may differ.
    pub open(crate) spec fn same_memory(self, old: Self) -> bool {
        &&& self.mem == old.mem
        &&& self.state == old.state
        &&& self.garbage.retired@ == old.garbage.retired@
    }

    /// Helping does not depend on what is protected.
    pub(crate) proof fn lemma_helped_mem(self, mid: Self, old: Self)
        requires
            mid.helped(old),
            self.same_memory(mid),
        ensures
            self.helped(old),
    {
        reveal(SkipList::helped);
        reveal(SkipList::kept);
    }

    /// Protection upon protection is protection.
    pub(crate) proof fn lemma_guarded_trans(self, mid: Self, old: Self)
        requires
            mid.guarded(old),
            self.guarded(mid),
        ensures
            self.guarded(old),
    {
        assert forall|a: usize| #[trigger] old.garbage.protects(a) implies self.garbage.protects(
            a,
        ) by {
            assert(mid.garbage.protects(a));
        }
    }

    /// Protection does not touch the invariant nor what helping has kept.
    pub(crate) proof fn lemma_guarded(self, old: Self, older: Self)
        requires
            old.inv(),
            old.helped(older),
            self.guarded(old),
        ensures
            self.inv(),
            self.helped(older),
    {
        reveal(SkipList::helped);
        reveal(SkipList::kept);
        reveal(SkipList::inv);
    }

    /// What helping keeps of a node: whether it is live, and its key, value,
    /// height, flag and tag.
    pub(crate) proof fn lemma_helped_node(self, old: Self, a: usize)
        requires
            old.inv(),
            self.helped(old),
        ensures
            self.mem.live(a) <==> old.mem.live(a),
            old.mem.live(a) ==> self.mem.key(a) == old.mem.key(a) && self.mem.node(a).val
                == old.mem.node(a).val && self.mem.node(a).spec_height() == old.mem.node(
                a,
            ).spec_height() && self.mem.node(a).spec_removed() == old.mem.node(a).spec_removed()
                && self.mem.tag(a, 0) == old.mem.tag(a, 0),
            self.state == old.state,
    {
        reveal(SkipList::helped);
        reveal(SkipList::kept);
        reveal(SkipList::inv);
        if old.mem.live(a) {
            assert(self.mem.live(a));
            assert(self.mem.node_same_but_refs(old.mem, a));
            assert(old.mem.node_ok(a));
            old.mem.lemma_live_addr(a);
        }
    }

    /// What the invariant says of the pointer that leads to position `p` of
    /// level `l`: it belongs to the head or to a live node, it points to the
    /// node at `p`, and it carries the tag of its node.
    pub(crate) proof fn lemma_pred(self, l: int, p: int)
        requires
            self.inv(),
            0 <= l < HEIGHT,
            0 <= p <= self.mem.chain(l).len(),
        ensures
            self.mem.valid(self.mem.pred_at(l, p)),
            self.mem.pred_at(l, p) != NULL,
            l < self.mem.tower(self.mem.pred_at(l, p)).len(),
            self.mem.next(self.mem.pred_at(l, p), l) == self.mem.next_at(l, p),
            self.mem.tag(self.mem.pred_at(l, p), l) == if self.mem.pred_at(l, p) == HEAD_ADDR {
                0
            } else {
                self.mem.tag(self.mem.pred_at(l, p), 0)
            },
            p > 0 ==> self.mem.pred_at(l, p) != HEAD_ADDR,
    {
        reveal(SkipList::inv);
        self.mem.lemma_live_addrs();
        assert(self.mem.chain_ok(l));
        if p > 0 {
            let a = self.mem.chain(l)[p - 1];
            assert(self.mem.live(a));
            assert(self.mem.node_ok(a));
            assert(self.mem.next(a, l) == self.mem.next_at(l, (p - 1) + 1));
        }
    }

    /// What the invariant says of the node at position `p` of level `l`: it
    /// is live and tall enough, its pointer at `l` leads to the node at
    /// `p + 1` and carries the node's tag, which is 0 or 1.
    pub(crate) proof fn lemma_elem(self, l: int, p: int)
        requires
            self.inv(),
            0 <= l < HEIGHT,
            0 <= p < self.mem.chain(l).len(),
        ensures
            self.mem.live(self.mem.chain(l)[p]),
            self.mem.valid(self.mem.chain(l)[p]),
            self.mem.chain(l)[p] != NULL,
            self.mem.chain(l)[p] != HEAD_ADDR,
            self.mem.next_at(l, p) == self.mem.chain(l)[p],
            self.mem.pred_at(l, p + 1) == self.mem.chain(l)[p],
            l < self.mem.tower(self.mem.chain(l)[p]).len(),
            self.mem.next(self.mem.chain(l)[p], l) == self.mem.next_at(l, p + 1),
            self.mem.tag(self.mem.chain(l)[p], l) == self.mem.tag(self.mem.chain(l)[p], 0),
            self.mem.tag(self.mem.chain(l)[p], 0) <= 1,
            self.mem.linked(self.mem.chain(l)[p], l),
    {
        reveal(SkipList::inv);
        self.mem.lemma_live_addrs();
        assert(self.mem.chain_ok(l));
        let a = self.mem.chain(l)[p];
        assert(self.mem.live(a));
        assert(self.mem.node_ok(a));
        assert(self.mem.next(a, l) == self.mem.next_at(l, p + 1));
    }

    /// The end of a level: behind its last node the pointer is null, and
    /// nowhere else.
    pub(crate) proof fn lemma_end(self, l: int, p: int)
        requires
            self.inv(),
            0 <= l < HEIGHT,
            0 <= p <= self.mem.chain(l).len(),
        ensures
            self.mem.next_at(l, p) == NULL <==> p == self.mem.chain(l).len(),
    {
        if p < self.mem.chain(l).len() {
            self.lemma_elem(l, p);
        }
    }

    /// One step of skipping: after the node at position `p` has been
    /// unlinked, the level is what it was without it, and all else that the
    /// loop relies on still holds.
    pub(crate) proof fn lemma_skip_step(
        self,
        old: Self,
        mid: Self,
        l: int,
        p: int,
        q: int,
        curr: usize,
    )
        requires
            total_order::<K>(),
            old.inv(),
            mid.inv(),
            self.inv(),
            mid.helped(old),
            0 <= l < HEIGHT,
            0 <= q,
            0 <= p < mid.mem.chain(l).len(),
            p + q <= old.mem.chain(l).len(),
            mid.mem.chain(l) =~= old.mem.chain(l).subrange(0, p) + old.mem.chain(l).subrange(
                p + q,
                old.mem.chain(l).len() as int,
            ),
            forall|k: int|
                0 <= k < HEIGHT && k != l ==> #[trigger] mid.mem.chain(k) == old.mem.chain(k),
            mid.mem.tag(mid.mem.chain(l)[p], 0) == 1,
            curr == mid.mem.pred_at(l, p),
            curr == HEAD_ADDR || mid.mem.tag(curr, 0) == 0,
            self.unlinked(mid, l, p),
        ensures
            self.helped(old),
            p + q + 1 <= old.mem.chain(l).len(),
            self.mem.chain(l) =~= old.mem.chain(l).subrange(0, p) + old.mem.chain(l).subrange(
                p + q + 1,
                old.mem.chain(l).len() as int,
            ),
            forall|k: int|
                0 <= k < HEIGHT && k != l ==> #[trigger] self.mem.chain(k) == old.mem.chain(k),
            old.mem.tag(old.mem.chain(l)[p + q], 0) == 1,
            curr == self.mem.pred_at(l, p),
            curr == HEAD_ADDR || self.mem.tag(curr, 0) == 0,
            self.mem.next_at(l, p) == mid.mem.next(mid.mem.chain(l)[p], l),
            forall|a: usize| #[trigger] mid.garbage.protects(a) ==> self.garbage.protects(a),
    {
        self.lemma_helped_step(old, mid, l, p);
        mid.lemma_elem(l, p);
        mid.lemma_helped_node(old, mid.mem.chain(l)[p]);
        reveal(SkipList::unlinked);
        let c0 = old.mem.chain(l);
        mid.mem.chain(l).remove_ensures(p);
        assert(mid.mem.chain(l)[p] == c0[p + q]);
        assert(self.mem.chain(l) =~= c0.subrange(0, p) + c0.subrange(p + q + 1, c0.len() as int));
        assert forall|k: int| 0 <= k < HEIGHT && k != l implies #[trigger] self.mem.chain(k)
            == old.mem.chain(k) by {
            assert(self.mem.chain(k) == mid.mem.chain(k));
        }
        mid.lemma_pred(l, p);
        if curr != HEAD_ADDR {
            assert(mid.mem.live(curr));
            assert(self.mem.node_same(mid.mem, curr));
            mid.mem.lemma_live_addr(curr);
            reveal(SkipList::inv);
            assert(mid.mem.node_ok(curr));
        }
    }

    /// From the predecessor `curr` at position `p` of `level`, unlinks the
    /// tagged nodes that follow, one after another, and returns the first
    /// node that carries no tag, or `None` at the end of the level. The
    /// second result is the number of nodes unlinked.
    pub(crate) fn skip_tagged(&mut self, curr: &NodeRef, level: usize, Ghost(p): Ghost<int>) -> (r:
        (Result<Option<NodeRef>, ()>, Ghost<int>))
        requires
            total_order::<K>(),
            old(self).inv(),
            level < HEIGHT,
            0 <= p <= old(self).mem.chain(level as int).len(),
            curr.addr == old(self).mem.pred_at(level as int, p),
            curr.addr == HEAD_ADDR || old(self).mem.tag(curr.addr, 0) == 0,
        ensures
            r.0.is_ok(),
            final(self).inv(),
            final(self).helped(*old(self)),
            0 <= r.1@,
            p + r.1@ <= old(self).mem.chain(level as int).len(),
            final(self).mem.chain(level as int) =~= old(self).mem.chain(level as int).subrange(0, p)
                + old(self).mem.chain(level as int).subrange(
                p + r.1@,
                old(self).mem.chain(level as int).len() as int,
            ),
            forall|k: int|
                0 <= k < HEIGHT && k != level
                    ==> #[trigger] final(self).mem.chain(k) == old(self).mem.chain(k),
            (p == old(self).mem.chain(level as int).len() || old(self).mem.tag(
                old(self).mem.chain(level as int)[p],
                0,
            ) == 0) ==> r.1@ == 0,
            curr.addr == final(self).mem.pred_at(level as int, p),
            curr.addr == HEAD_ADDR || final(self).mem.tag(curr.addr, 0) == 0,
            addr_or_null(r.0.unwrap()) == final(self).mem.next_at(level as int, p),
            p < final(self).mem.chain(level as int).len() ==> final(self).mem.tag(
                final(self).mem.chain(level as int)[p],
                0,
            ) == 0,
            r.0.unwrap().is_some() ==> r.0.unwrap().unwrap().addr != NULL
                && final(self).garbage.protects(r.0.unwrap().unwrap().addr),
            forall|a: usize|
                #[trigger] old(self).garbage.protects(a) ==> final(self).garbage.protects(a),
            r.1@ == 0 ==> final(self).guarded(*old(self)),
    {
        let ghost l = level as int;
        proof {
            self.lemma_helped_refl();
            self.lemma_pred(l, p);
        }
        let mut next = self.protect_next(curr.addr, level);
        proof {
            self.lemma_guarded(*old(self), *old(self));
        }
        let ghost mut q: int = 0;
        loop
            invariant
                total_order::<K>(),
                old(self).inv(),
                self.inv(),
                self.helped(*old(self)),
                level < HEIGHT,
                l == level as int,
                0 <= q,
                0 <= p <= self.mem.chain(l).len(),
                p + q <= old(self).mem.chain(l).len(),
                self.mem.chain(l) =~= old(self).mem.chain(l).subrange(0, p)
                    + old(self).mem.chain(l).subrange(p + q, old(self).mem.chain(l).len() as int),
                forall|k: int|
                    0 <= k < HEIGHT && k != l ==> #[trigger] self.mem.chain(k) == old(self).mem.chain(k),
                (p == old(self).mem.chain(l).len() || old(self).mem.tag(
                    old(self).mem.chain(l)[p],
                    0,
                ) == 0) ==> q == 0,
                curr.addr == self.mem.pred_at(l, p),
                curr.addr == HEAD_ADDR || self.mem.tag(curr.addr, 0) == 0,
                addr_or_null(next) == self.mem.next_at(l, p),
                next.is_some() ==> next.unwrap().addr != NULL && self.garbage.protects(
                    next.unwrap().addr,
                ),
                forall|a: usize|
                    #[trigger] old(self).garbage.protects(a) ==> self.garbage.protects(a),
                q == 0 ==> self.guarded(*old(self)),
            decreases old(self).mem.chain(l).len() - p - q,
        {
            let ghost cur = *self;
            proof {
                self.lemma_end(l, p);
            }
            match next {
                None => {
                    return (Ok(None), Ghost(q));
                },
                Some(n) => {
                    proof {
                        self.lemma_elem(l, p);
                    }
                    let tag = self.mem.load(n.addr, level).1;
                    if tag == 0 {
                        return (Ok(Some(n)), Ghost(q));
                    }
                    let new_next = self.protect_next(n.addr, level);
                    proof {
                        self.lemma_guarded(cur, *old(self));
                        self.lemma_pred(l, p);
                    }
                    let ghost mid = *self;
                    match self.unlink_level(curr, n, new_next, level, Ghost(p)) {
                        Ok(nn) => {
                            proof {
                                self.lemma_skip_step(*old(self), mid, l, p, q, curr.addr);
                                q = q + 1;
                            }
                            next = nn;
                        },
                        Err(_) => {
                            return (Err(()), Ghost(q));
                        },
                    }
                },
            }
        }
    }

    /// What a search for `key` has found, in the list as it is after the
    /// search: at every level the recorded pair stands around the position
    /// that brackets the key. A search for the key itself has the node
    /// behind the bracket of level 0 as its target if that node holds the key
    /// and is not marked removed; a search for the closest node has that
    /// node as its target whatever it holds.
    #[verifier::opaque]
    pub open(crate) spec fn found(self, key: K, closest: bool, r: SearchResult) -> bool {
        &&& r.prev@.len() == HEIGHT
        &&& r.pos@.len() == HEIGHT
        &&& pairs_sound(r.prev@)
        &&& r.from@.len() == HEIGHT
        &&& (forall|l: int|
            0 <= l < HEIGHT ==> self.swept(l, #[trigger] r.from@[l], r.pos@[l]) && self.mem.pred_at(
                l,
                r.from@[l],
            ) == above(r.prev@, l))
        &&& (forall|l: int|
            0 <= l < HEIGHT ==> self.mem.found_at(
                key,
                l,
                #[trigger] r.pos@[l],
                r.prev@[l].0.addr,
                addr_or_null(r.prev@[l].1),
            ))
        &&& addr_or_null(r.target) == self.target_of(key, closest, r.pos@[0])
        &&& (r.target.is_some() ==> r.target.unwrap().addr != NULL && self.garbage.protects(
            r.target.unwrap().addr,
        ))
    }

    /// The target of a search whose bracket at level 0 is position `j`.
    pub open(crate) spec fn target_of(self, key: K, closest: bool, j: int) -> usize {
        let next = self.mem.next_at(0, j);
        if closest {
            next
        } else if next != NULL && self.mem.key(next) == key && !self.mem.node(next).spec_removed() {
            next
        } else {
            NULL
        }
    }

    /// No node of level `l` at the positions from `lo` to `hi` carries a
    /// tag: whatever was tagged there has been unlinked by the search that
    /// walked them.
    pub open(crate) spec fn swept(self, l: int, lo: int, hi: int) -> bool {
        &&& 0 <= lo <= hi <= self.mem.chain(l).len()
        &&& (forall|i: int| lo <= i < hi ==> self.mem.tag(#[trigger] self.mem.chain(l)[i], 0) == 0)
    }

    /// Helping behind a stretch that was swept leaves it swept.
    pub(crate) proof fn lemma_swept_kept(self, old: Self, l: int, lo: int, hi: int)
        requires
            old.inv(),
            self.helped(old),
            0 <= l < HEIGHT,
            old.swept(l, lo, hi),
            hi <= self.mem.chain(l).len(),
            forall|i: int| 0 <= i < hi ==> #[trigger] self.mem.chain(l)[i] == old.mem.chain(l)[i],
        ensures
            self.swept(l, lo, hi),
            self.mem.pred_at(l, lo) == old.mem.pred_at(l, lo),
    {
        assert forall|i: int| lo <= i < hi implies self.mem.tag(#[trigger] self.mem.chain(l)[i], 0)
            == 0 by {
            old.lemma_elem(l, i);
            self.lemma_helped_node(old, old.mem.chain(l)[i]);
            assert(old.mem.tag(old.mem.chain(l)[i], 0) == 0);
        }
        if lo > 0 {
            assert(self.mem.chain(l)[lo - 1] == old.mem.chain(l)[lo - 1]);
        }
    }

    /// Helping at other levels leaves a recorded pair where it was.
    pub(crate) proof fn lemma_found_kept(
        self,
        old: Self,
        key: K,
        l: int,
        j: int,
        pred: usize,
        next: usize,
    )
        requires
            old.inv(),
            self.helped(old),
            0 <= l < HEIGHT,
            self.mem.chain(l) == old.mem.chain(l),
            old.mem.found_at(key, l, j, pred, next),
        ensures
            self.mem.found_at(key, l, j, pred, next),
    {
        if j > 0 {
            old.lemma_elem(l, j - 1);
            self.lemma_helped_node(old, old.mem.chain(l)[j - 1]);
        }
        if j < old.mem.chain(l).len() {
            old.lemma_elem(l, j);
            self.lemma_helped_node(old, old.mem.chain(l)[j]);
        }
    }

    /// Helping is transitive.
    pub(crate) proof fn lemma_helped_trans(self, mid: Self, old: Self)
        requires
            old.inv(),
            mid.helped(old),
            self.helped(mid),
        ensures
            self.helped(old),
    {
        self.lemma_helped_kept(mid);
        mid.lemma_helped_kept(old);
        self.lemma_kept_trans(mid, old);
        reveal(SkipList::helped);
        assert forall|a: usize|
            #![trigger self.mem.node(a)]
            old.mem.live(a) implies self.mem.node(a).spec_refs() <= old.mem.node(
            a,
        ).spec_refs() by {
            assert(mid.mem.live(a));
            assert(mid.mem.node(a).spec_refs() <= old.mem.node(a).spec_refs());
        }
        assert forall|a: usize|
            #![trigger self.garbage.holds(a)]
            #![trigger old.garbage.holds(a)]
            self.garbage.holds(a) <==> old.garbage.holds(a) || (old.mem.live(a) && old.mem.node(
                a,
            ).spec_refs() > 0 && self.mem.node(a).spec_refs() == 0) by {
            assert(mid.garbage.holds(a) <==> old.garbage.holds(a) || (old.mem.live(a)
                && old.mem.node(a).spec_refs() > 0 && mid.mem.node(a).spec_refs() == 0));
            if old.mem.live(a) {
                assert(mid.mem.live(a));
                assert(mid.mem.node(a).spec_refs() <= old.mem.node(a).spec_refs());
                assert(self.mem.node(a).spec_refs() <= mid.mem.node(a).spec_refs());
            }
            if mid.mem.live(a) && !old.mem.live(a) {
                mid.lemma_helped_kept(old);
                reveal(SkipList::kept);
            }
        }
    }

    /// Levels at or above the greatest height drawn are empty, and so is a
    /// level whose head pointer is null.
    pub(crate) proof fn lemma_empty_level(self, l: int)
        requires
            self.inv(),
            0 <= l < HEIGHT,
            self.state.max_height <= l || self.mem.next(HEAD_ADDR, l) == NULL,
        ensures
            self.mem.chain(l).len() == 0,
            self.mem.next(HEAD_ADDR, l) == NULL,
    {
        self.lemma_pred(l, 0);
        self.lemma_end(l, 0);
        reveal(SkipList::inv);
        if self.state.max_height <= l {
            assert(self.mem.chain(l).len() == 0);
        }
    }

    /// The bounds that the invariant puts on the greatest height drawn.
    pub(crate) proof fn lemma_max_height(self)
        requires
            self.inv(),
        ensures
            1 <= self.state.max_height <= HEIGHT,
            self.mem.head.levels@.len() == HEIGHT,
            self.mem.valid(HEAD_ADDR),
            self.mem.tower(HEAD_ADDR).len() == HEIGHT,
    {
        reveal(SkipList::inv);
    }

    /// A probe that names a node names a live one.
    pub open(crate) spec fn probe_ok(self, probe: Probe<'_, K>) -> bool {
        match probe {
            Probe::Key(_) => true,
            Probe::Node(a) => self.mem.live(a),
        }
    }

    /// The key that a probe stands for.
    pub open(crate) spec fn probe_key(self, probe: Probe<'_, K>) -> K {
        match probe {
            Probe::Key(k) => *k,
            Probe::Node(a) => self.mem.key(a),
        }
    }

    /// Helping leaves a probe what it was.
    pub(crate) proof fn lemma_probe_kept(self, old: Self, probe: Probe<'_, K>)
        requires
            old.inv(),
            self.helped(old),
            old.probe_ok(probe),
        ensures
            self.probe_ok(probe),
            self.probe_key(probe) == old.probe_key(probe),
    {
        match probe {
            Probe::Key(_) => {},
            Probe::Node(a) => {
                self.lemma_helped_node(old, a);
            },
        }
    }

    /// Whether the key of the node at `n` is smaller than that of `probe`.
    pub(crate) fn probe_lt(&self, n: usize, probe: &Probe<'_, K>) -> (r: bool)
        requires
            total_order::<K>(),
            self.mem.live(n),
            self.probe_ok(*probe),
        ensures
            r == lt(self.mem.key(n), self.probe_key(*probe)),
    {
        match probe {
            Probe::Key(k) => key_lt(&self.mem.node_ref(n).key, k),
            Probe::Node(a) => key_lt(&self.mem.node_ref(n).key, &self.mem.node_ref(*a).key),
        }
    }

    /// Whether the node at `n` holds the key of `probe`.
    pub(crate) fn probe_eq(&self, n: usize, probe: &Probe<'_, K>) -> (r: bool)
        requires
            total_order::<K>(),
            self.mem.live(n),
            self.probe_ok(*probe),
        ensures
            r == (self.mem.key(n) == self.probe_key(*probe)),
    {
        match probe {
            Probe::Key(k) => key_eq(&self.mem.node_ref(n).key, k),
            Probe::Node(a) => key_eq(&self.mem.node_ref(n).key, &self.mem.node_ref(*a).key),
        }
    }

    /// One pass of a search for `key`: from the highest populated level
    /// down, walks each level forward while the keys are smaller, unlinks
    /// every tagged node that it meets, and records at each level the
    /// predecessor of the key and the node after it.
    pub(crate) fn search(&mut self, probe: &Probe<'_, K>, search_closest: bool) -> (r: Result<
        SearchResult,
        (),
    >)
        requires
            total_order::<K>(),
            old(self).inv(),
            old(self).probe_ok(*probe),
        ensures
            r.is_ok(),
            final(self).inv(),
            final(self).helped(*old(self)),
            final(self).found(old(self).probe_key(*probe), search_closest, r.unwrap()),
            old(self).tagless() ==> final(self).guarded(*old(self)),
    {
        let ghost key = self.probe_key(*probe);
        proof {
            self.lemma_helped_refl();
            self.lemma_max_height();
        }
        // The pairs start out at the head.
        let mut prev: Vec<(NodeRef, Option<NodeRef>)> = Vec::new();
        let mut i: usize = 0;
        while i < HEIGHT
            invariant
                i <= HEIGHT,
                prev@.len() == i,
                self.guarded(*old(self)),
                old(self).inv(),
                self.mem.valid(HEAD_ADDR),
                self.mem.tower(HEAD_ADDR).len() == HEIGHT,
                pairs_sound(prev@),
                forall|l: int|
                    0 <= l < i ==> (#[trigger] prev@[l]).0.addr == HEAD_ADDR && addr_or_null(
                        prev@[l].1,
                    ) == self.mem.next(HEAD_ADDR, l),
            decreases HEIGHT - i,
        {
            let head = self.protect_raw(HEAD_ADDR);
            let first = self.protect_next(HEAD_ADDR, i);
            prev.push((head, first));
            i += 1;
        }
        proof {
            self.lemma_guarded(*old(self), *old(self));
            self.lemma_max_height();
            assert forall|l: int| self.state.max_height <= l < HEIGHT implies (
            #[trigger] self.mem.chain(l)).len() == 0 && self.mem.next(HEAD_ADDR, l) == NULL by {
                self.lemma_empty_level(l);
            }
        }
        // The search starts at the highest level that holds a node.
        let mut level: usize = self.state.max_height;
        while level > 1 && self.mem.load(HEAD_ADDR, level - 1).0 == NULL
            invariant
                1 <= level <= HEIGHT,
                self.inv(),
                self.mem.valid(HEAD_ADDR),
                self.mem.tower(HEAD_ADDR).len() == HEIGHT,
                forall|l: int|
                    level <= l < HEIGHT ==> (#[trigger] self.mem.chain(l)).len() == 0
                        && self.mem.next(HEAD_ADDR, l) == NULL,
            decreases level,
        {
            proof {
                self.lemma_empty_level(level - 1);
            }
            level -= 1;
        }
        let ghost mut pos: Seq<int> = Seq::new(HEIGHT as nat, |l: int| 0int);
        let ghost mut from: Seq<int> = Seq::new(HEIGHT as nat, |l: int| 0int);
        let ghost mut p: int = 0;
        let ghost mut p0: int = 0;
        let ghost primed = *self;
        let mut curr = self.protect_raw(HEAD_ADDR);
        proof {
            self.lemma_guarded_trans(primed, *old(self));
            self.lemma_guarded(*old(self), *old(self));
            assert forall|l: int| level <= l < HEIGHT implies self.mem.found_at(
                key,
                l,
                #[trigger] pos[l],
                prev@[l].0.addr,
                addr_or_null(prev@[l].1),
            ) by {
                assert(self.mem.chain(l).len() == 0);
            }
            assert forall|l: int| 0 <= l < HEIGHT implies above(prev@, l) == HEAD_ADDR by {
                if l + 1 < HEIGHT {
                    assert(prev@[l + 1].0.addr == HEAD_ADDR);
                }
            }
            assert forall|l: int| level <= l < HEIGHT implies self.swept(
                l,
                #[trigger] from[l],
                pos[l],
            ) && self.mem.pred_at(l, from[l]) == above(prev@, l) by {}
        }
        while level > 0
            invariant
                total_order::<K>(),
                old(self).inv(),
                old(self).probe_ok(*probe),
                key == old(self).probe_key(*probe),
                self.inv(),
                self.helped(*old(self)),
                old(self).tagless() ==> self.guarded(*old(self)),
                pairs_sound(prev@),
                from.len() == HEIGHT,
                forall|l: int|
                    level <= l < HEIGHT ==> self.swept(l, #[trigger] from[l], pos[l])
                        && self.mem.pred_at(l, from[l]) == above(prev@, l),
                level > 0 ==> 0 <= p0 <= p && self.swept(level - 1, p0, p) && self.mem.pred_at(
                    level - 1,
                    p0,
                ) == above(prev@, level - 1),
                0 <= level <= HEIGHT,
                prev@.len() == HEIGHT,
                pos.len() == HEIGHT,
                level > 0 ==> 0 <= p <= self.mem.chain(level - 1).len() && curr.addr
                    == self.mem.pred_at(level - 1, p),
                curr.addr == HEAD_ADDR || (self.mem.live(curr.addr) && self.mem.tag(curr.addr, 0)
                    == 0 && lt(self.mem.key(curr.addr), key)),
                curr.addr != NULL,
                forall|l: int|
                    level <= l < HEIGHT ==> self.mem.found_at(
                        key,
                        l,
                        #[trigger] pos[l],
                        prev@[l].0.addr,
                        addr_or_null(prev@[l].1),
                    ),
            decreases level, self.mem.chain(level - 1).len() - p,
        {
            let ghost l = level - 1;
            let ghost before = *self;
            let (skipped, Ghost(q)) = self.skip_tagged(&curr, level - 1, Ghost(p));
            proof {
                if old(self).tagless() {
                    if p < before.mem.chain(l).len() {
                        assert(old(self).mem.tag(old(self).mem.chain(l)[p], 0) == 0);
                    }
                    self.lemma_guarded_trans(before, *old(self));
                }
                self.lemma_helped_trans(before, *old(self));
                assert forall|k: int| level <= k < HEIGHT implies self.swept(
                    k,
                    #[trigger] from[k],
                    pos[k],
                ) && self.mem.pred_at(k, from[k]) == above(prev@, k) by {
                    assert(self.mem.chain(k) == before.mem.chain(k));
                    self.lemma_swept_kept(before, k, from[k], pos[k]);
                }
                assert forall|i: int| 0 <= i < p implies #[trigger] self.mem.chain(l)[i]
                    == before.mem.chain(l)[i] by {
                    assert(self.mem.chain(l)[i] == before.mem.chain(l).subrange(0, p)[i]);
                }
                self.lemma_swept_kept(before, l, p0, p);
                assert forall|k: int| level <= k < HEIGHT implies self.mem.found_at(
                    key,
                    k,
                    #[trigger] pos[k],
                    prev@[k].0.addr,
                    addr_or_null(prev@[k].1),
                ) by {
                    self.lemma_found_kept(
                        before,
                        key,
                        k,
                        pos[k],
                        prev@[k].0.addr,
                        addr_or_null(prev@[k].1),
                    );
                }
                if curr.addr != HEAD_ADDR {
                    self.lemma_helped_node(before, curr.addr);
                }
                self.lemma_end(l, p);
                if p < self.mem.chain(l).len() {
                    self.lemma_elem(l, p);
                }
            }
            let next = match skipped {
                Ok(n) => n,
                Err(_) => {
                    return Err(());
                },
            };
            proof {
                self.lemma_probe_kept(*old(self), *probe);
            }
            let smaller = match &next {
                Some(n) => self.probe_lt(n.addr, probe),
                None => false,
            };
            let ghost mid = *self;
            if smaller {
                let n = next.unwrap();
                let keep = self.clone_ref(&n);
                prev[level - 1] = (curr, Some(keep));
                curr = n;
                proof {
                    self.lemma_guarded(mid, *old(self));
                    if old(self).tagless() {
                        self.lemma_guarded_trans(mid, *old(self));
                    }
                    p = p + 1;
                }
            } else {
                let keep = self.clone_ref(&curr);
                proof {
                    self.lemma_guarded(mid, *old(self));
                    if old(self).tagless() {
                        self.lemma_guarded_trans(mid, *old(self));
                    }
                    self.lemma_pred(l, p);
                }
                prev[level - 1] = (keep, next);
                proof {
                    pos = pos.update(l, p);
                    from = from.update(l, p0);
                    assert(self.mem.found_at(
                        key,
                        l,
                        pos[l],
                        prev@[l].0.addr,
                        addr_or_null(prev@[l].1),
                    ));
                    assert forall|k: int| l <= k < HEIGHT implies self.swept(
                        k,
                        #[trigger] from[k],
                        pos[k],
                    ) && self.mem.pred_at(k, from[k]) == above(prev@, k) by {}
                    if level > 1 {
                        reveal(SkipList::inv);
                        self.mem.lemma_below(l, p);
                        p = self.mem.below(l, p);
                        p0 = p;
                    }
                }
                level -= 1;
            }
        }
        let ghost settled = *self;
        let target = if search_closest {
            let (skipped, Ghost(q)) = self.skip_tagged(&prev[0].0, 0, Ghost(pos[0]));
            proof {
                if old(self).tagless() {
                    if pos[0] < settled.mem.chain(0).len() {
                        assert(old(self).mem.tag(old(self).mem.chain(0)[pos[0]], 0) == 0);
                    }
                    self.lemma_guarded_trans(settled, *old(self));
                }
                self.lemma_helped_trans(settled, *old(self));
                assert(self.mem.chain(0) == settled.mem.chain(0));
                assert forall|k: int| 0 <= k < HEIGHT implies self.swept(
                    k,
                    #[trigger] from[k],
                    pos[k],
                ) && self.mem.pred_at(k, from[k]) == above(prev@, k) by {
                    assert(self.mem.chain(k) == settled.mem.chain(k));
                    self.lemma_swept_kept(settled, k, from[k], pos[k]);
                }
                assert forall|k: int| 0 <= k < HEIGHT implies self.mem.found_at(
                    key,
                    k,
                    #[trigger] pos[k],
                    prev@[k].0.addr,
                    addr_or_null(prev@[k].1),
                ) by {
                    self.lemma_found_kept(
                        settled,
                        key,
                        k,
                        pos[k],
                        prev@[k].0.addr,
                        addr_or_null(prev@[k].1),
                    );
                }
            }
            match skipped {
                Ok(n) => n,
                Err(_) => {
                    return Err(());
                },
            }
        } else {
            proof {
                self.lemma_pred(0, pos[0]);
                self.lemma_end(0, pos[0]);
                if pos[0] < self.mem.chain(0).len() {
                    self.lemma_elem(0, pos[0]);
                }
            }
            let cand = self.protect_next(prev[0].0.addr, 0);
            proof {
                self.lemma_guarded(settled, *old(self));
                if old(self).tagless() {
                    self.lemma_guarded_trans(settled, *old(self));
                }
            }
            proof {
                self.lemma_probe_kept(*old(self), *probe);
            }
            let hit = match &cand {
                Some(n) => self.probe_eq(n.addr, probe) && !self.mem.node_ref(n.addr).removed(),
                None => false,
            };
            if hit {
                cand
            } else {
                None
            }
        };
        let r = SearchResult { prev, target, pos: Ghost(pos), from: Ghost(from) };
        proof {
            reveal(SkipList::found);
        }
        Ok(r)
    }

    /// Searches for the key of `probe`. A pass that could not finish a help
    /// is started again from the top; with exclusive access the first pass
    /// finishes.
    pub(crate) fn find_probe(&mut self, probe: &Probe<'_, K>, search_closest: bool) -> (r:
        SearchResult)
        requires
            total_order::<K>(),
            old(self).inv(),
            old(self).probe_ok(*probe),
        ensures
            final(self).inv(),
            final(self).helped(*old(self)),
            final(self).found(old(self).probe_key(*probe), search_closest, r),
            old(self).tagless() ==> final(self).guarded(*old(self)),
    {
        loop
            invariant
                total_order::<K>(),
                *self == *old(self),
                self.inv(),
                self.probe_ok(*probe),
            decreases 0int,
        {
            match self.search(probe, search_closest) {
                Ok(r) => {
                    return r;
                },
                Err(_) => {},
            }
        }
    }

    /// Freeing in progress: the retired nodes that nothing protected have
    /// been taken out of the retired list as `freed`, and the first `i` of
    /// them have been freed.
    #[verifier::opaque]
    pub open(crate) spec fn sweeping(self, old: Self, freed: Seq<usize>, i: int) -> bool {
        &&& self.inv()
        &&& self.kept(old)
        &&& self.state == old.state
        &&& self.garbage.hazards@ == old.garbage.hazards@
        &&& freed.no_duplicates()
        &&& 0 <= i <= freed.len()
        &&& (forall|a: usize| freed.contains(a) <==> old.garbage.holds(a) && !old.garbage.protects(a))
        &&& (forall|a: usize|
            self.garbage.holds(a) <==> old.garbage.holds(a) && old.garbage.protects(a))
        &&& (forall|k: int|
            i <= k < freed.len() ==> self.mem.live(#[trigger] freed[k]) && self.mem.node(
                freed[k],
            ).spec_refs() == 0 && self.mem.tag(freed[k], 0) == 1)
        &&& (forall|a: usize|
            #![trigger self.mem.live(a)]
            self.mem.live(a) <==> old.mem.live(a) && !(exists|k: int|
                0 <= k < i && freed[k] == a))
        &&& (forall|a: usize| self.mem.live(a) ==> #[trigger] self.mem.node(a) == old.mem.node(a))
        &&& self.mem.chains@ == old.mem.chains@
    }

    /// Freeing starts with nothing freed.
    pub(crate) proof fn lemma_sweep_init(self, old: Self, freed: Seq<usize>)
        requires
            old.inv(),
            self.mem == old.mem,
            self.state == old.state,
            self.garbage.hazards@ == old.garbage.hazards@,
            freed.no_duplicates(),
            self.garbage.retired@.no_duplicates(),
            forall|a: usize| freed.contains(a) <==> old.garbage.holds(a) && !old.garbage.protects(a),
            forall|a: usize|
                self.garbage.holds(a) <==> old.garbage.holds(a) && old.garbage.protects(a),
        ensures
            self.sweeping(old, freed, 0),
    {
        reveal(SkipList::sweeping);
        reveal(SkipList::inv);
        old.lemma_helped_refl();
        reveal(SkipList::kept);
        assert forall|k: int| 0 <= k < self.garbage.retired@.len() implies self.retired_ok(
            #[trigger] self.garbage.retired@[k],
        ) by {
            let a = self.garbage.retired@[k];
            assert(self.garbage.holds(a));
            assert(old.garbage.holds(a));
            let m = choose|m: int|
                0 <= m < old.garbage.retired@.len() && old.garbage.retired@[m] == a;
            assert(old.retired_ok(old.garbage.retired@[m]));
        }
        assert forall|k: int| 0 <= k < freed.len() implies self.mem.live(#[trigger] freed[k])
            && self.mem.node(freed[k]).spec_refs() == 0 && self.mem.tag(freed[k], 0) == 1 by {
            let a = freed[k];
            assert(freed.contains(a));
            assert(old.garbage.holds(a));
            let m = choose|m: int|
                0 <= m < old.garbage.retired@.len() && old.garbage.retired@[m] == a;
            assert(old.retired_ok(old.garbage.retired@[m]));
        }
    }

    /// Freeing one more node goes on with the freeing.
    pub(crate) proof fn lemma_sweep_step(self, mid: Self, old: Self, freed: Seq<usize>, i: int)
        requires
            old.inv(),
            mid.sweeping(old, freed, i),
            0 <= i < freed.len(),
            mid.mem.shrunk(self.mem, freed[i]),
            self.state == mid.state,
            self.garbage == mid.garbage,
        ensures
            self.sweeping(old, freed, i + 1),
    {
        reveal(SkipList::sweeping);
        let x = freed[i];
        assert(mid.mem.live(x));
        assert(freed.contains(x));
        self.lemma_kept_free(mid, x);
        self.lemma_kept_trans(mid, old);
        mid.mem.lemma_live_addrs();
        self.mem.lemma_live_addrs();
        assert forall|k: int| i + 1 <= k < freed.len() implies self.mem.live(
            #[trigger] freed[k],
        ) && self.mem.node(freed[k]).spec_refs() == 0 && self.mem.tag(freed[k], 0) == 1 by {
            assert(freed[k] != x);
            assert(mid.mem.live(freed[k]));
            assert(self.mem.node(freed[k]) == mid.mem.node(freed[k]));
        }
        assert forall|a: usize| self.mem.live(a) implies #[trigger] self.mem.node(a)
            == old.mem.node(a) by {
            assert(a != x);
            assert(mid.mem.live(a));
            assert(self.mem.node(a) == mid.mem.node(a));
        }
        assert forall|a: usize|
            #![trigger self.mem.live(a)]
            self.mem.live(a) <==> old.mem.live(a) && !(exists|k: int|
                0 <= k < i + 1 && freed[k] == a) by {
            if a == x {
                assert(0 <= i < i + 1 && freed[i] == a);
            } else {
                assert(self.mem.live(a) <==> mid.mem.live(a));
                if exists|k: int| 0 <= k < i + 1 && freed[k] == a {
                    let k = choose|k: int| 0 <= k < i + 1 && freed[k] == a;
                    assert(0 <= k < i && freed[k] == a);
                }
            }
        }
    }

    /// Freeing a tagged node that no level links keeps, and leaves the
    /// list in order.
    pub(crate) proof fn lemma_kept_free(self, mid: Self, x: usize)
        requires
            mid.inv(),
            mid.mem.live(x),
            mid.mem.tag(x, 0) == 1,
            mid.mem.node(x).spec_refs() == 0,
            !mid.garbage.holds(x),
            mid.mem.shrunk(self.mem, x),
            self.state == mid.state,
            self.garbage == mid.garbage,
        ensures
            self.kept(mid),
            self.inv(),
    {
        reveal(SkipList::kept);
        reveal(SkipList::inv);
        mid.mem.lemma_live_addrs();
        self.mem.lemma_live_addrs();
        mid.mem.lemma_shrink(self.mem, x);
        assert forall|a: usize| #[trigger] self.mem.live(a) implies mid.mem.live(a)
            && self.mem.node_same_but_refs(mid.mem, a) by {
            assert(self.mem.node(a) == mid.mem.node(a));
        }
        assert forall|a: usize|
            #![trigger self.mem.node(a)]
            #![trigger mid.mem.live(a)]
            mid.mem.live(a) && mid.mem.tag(a, 0) == 0 implies self.mem.live(a) && self.mem.node(
            a,
        ).spec_refs() == mid.mem.node(a).spec_refs() by {
            assert(a != x);
            assert(self.mem.live(a));
            assert(self.mem.node(a) == mid.mem.node(a));
        }
        assert forall|a: usize, k: int| 0 <= k < HEIGHT implies (#[trigger] self.mem.linked(a, k)
            <==> mid.mem.linked(a, k)) by {
            assert(self.mem.chain(k) == mid.mem.chain(k));
        }
        assert forall|k: int| self.state.max_height <= k < HEIGHT implies (
        #[trigger] self.mem.chain(k)).len() == 0 by {
            assert(mid.mem.chain(k).len() == 0);
            assert(self.mem.chain(k) == mid.mem.chain(k));
        }
        assert forall|i: int| 0 <= i < self.garbage.retired@.len() implies self.retired_ok(
            #[trigger] self.garbage.retired@[i],
        ) by {
            let a = self.garbage.retired@[i];
            assert(mid.retired_ok(mid.garbage.retired@[i]));
            assert(mid.garbage.holds(a));
            assert(a != x);
            assert(self.mem.live(a));
            assert(self.mem.node(a) == mid.mem.node(a));
        }
    }

    /// Frees the retired nodes that nothing protects, and returns how many
    /// they were. The protected ones stay retired.
    pub(crate) fn reclaim(&mut self) -> (count: usize)
        requires
            old(self).inv(),
        ensures
            final(self).inv(),
            final(self).kept(*old(self)),
            final(self).state == old(self).state,
            final(self).garbage.hazards@ == old(self).garbage.hazards@,
            forall|a: usize|
                #![trigger final(self).mem.live(a)]
                final(self).mem.live(a) <==> old(self).mem.live(a) && !(old(self).garbage.holds(a)
                    && !old(self).garbage.protects(a)),
            forall|a: usize|
                #![trigger final(self).garbage.holds(a)]
                final(self).garbage.holds(a) <==> old(self).garbage.holds(a) && old(self).garbage.protects(a),
            forall|a: usize|
                final(self).mem.live(a) ==> #[trigger] final(self).mem.node(a) == old(self).mem.node(
                    a,
                ),
            final(self).mem.chains@ == old(self).mem.chains@,
            count + final(self).garbage.retired@.len() == old(self).garbage.retired@.len(),
    {
        proof {
            reveal(SkipList::inv);
        }
        let freed = self.garbage.eager_reclaim();
        proof {
            self.lemma_sweep_init(*old(self), freed@);
        }
        let mut i: usize = 0;
        while i < freed.len()
            invariant
                old(self).inv(),
                self.sweeping(*old(self), freed@, i as int),
                i <= freed@.len(),
                freed@.len() + self.garbage.retired@.len() == old(self).garbage.retired@.len(),
            decreases freed@.len() - i,
        {
            let ghost mid = *self;
            proof {
                reveal(SkipList::sweeping);
            }
            self.mem.free(freed[i]);
            proof {
                self.lemma_sweep_step(mid, *old(self), freed@, i as int);
            }
            i += 1;
        }
        proof {
            reveal(SkipList::sweeping);
            assert forall|a: usize|
                #![trigger self.mem.live(a)]
                self.mem.live(a) <==> old(self).mem.live(a) && !(old(self).garbage.holds(a)
                    && !old(self).garbage.protects(a)) by {
                if exists|k: int| 0 <= k < freed@.len() && freed@[k] == a {
                    assert(freed@.contains(a));
                }
                if freed@.contains(a) {
                    let k = choose|k: int| 0 <= k < freed@.len() && freed@[k] == a;
                    assert(0 <= k < i && freed@[k] == a);
                }
            }
        }
        freed.len()
    }

    /// The length is no part of the structure: a list that differs in its
    /// length alone is in order as the other is, and keeps what it kept.
    pub(crate) proof fn lemma_relen(self, old: Self)
        requires
            old.inv(),
            self.mem == old.mem,
            self.garbage == old.garbage,
            self.state.max_height == old.state.max_height,
            self.state.seed == old.state.seed,
        ensures
            self.inv(),
            self.kept(old),
    {
        reveal(SkipList::inv);
        reveal(SkipList::kept);
        old.lemma_helped_refl();
    }

    /// The node at `x` is tagged and about to be unlinked: every level below
    /// `upto` links it at the recorded position, behind the recorded
    /// predecessor, whose pointer there carries no tag; no other level links
    /// it; and its reference count is `upto`.
    #[verifier::opaque]
    pub open(crate) spec fn aimed(
        self,
        x: usize,
        prev: Seq<(NodeRef, Option<NodeRef>)>,
        pos: Seq<int>,
        upto: int,
    ) -> bool {
        &&& prev.len() == HEIGHT
        &&& pos.len() == HEIGHT
        &&& self.mem.live(x)
        &&& self.mem.tag(x, 0) == 1
        &&& 0 <= upto <= HEIGHT
        &&& self.mem.node(x).spec_refs() == upto
        &&& (forall|l: int|
            0 <= l < upto ==> 0 <= #[trigger] pos[l] < self.mem.chain(l).len() && self.mem.chain(
                l,
            )[pos[l]] == x && prev[l].0.addr == self.mem.pred_at(l, pos[l]) && self.mem.tag(
                self.mem.pred_at(l, pos[l]),
                l,
            ) == 0)
        &&& (forall|l: int| upto <= l < HEIGHT ==> !(#[trigger] self.mem.linked(x, l)))
    }

    /// A node that is aimed at is ready to be unlinked through the recorded
    /// predecessors: each of them is the head or a node of its level, and
    /// its pointer there holds the node without a tag.
    pub(crate) proof fn lemma_aimed_fresh(
        self,
        x: usize,
        prev: Seq<(NodeRef, Option<NodeRef>)>,
        pos: Seq<int>,
        height: int,
    )
        requires
            self.inv(),
            self.aimed(x, prev, pos, height),
        ensures
            prev.len() == HEIGHT,
            self.mem.live(x),
            self.mem.tag(x, 0) == 1,
            0 <= height <= HEIGHT,
            self.mem.node(x).spec_refs() == height,
            forall|l: int|
                0 <= l < height ==> ((#[trigger] prev[l]).0.addr == HEAD_ADDR || self.mem.linked(
                    prev[l].0.addr,
                    l,
                )) && self.mem.tower(prev[l].0.addr)[l] == (x, 0usize),
    {
        reveal(SkipList::aimed);
        assert forall|l: int| 0 <= l < height implies ((#[trigger] prev[l]).0.addr == HEAD_ADDR
            || self.mem.linked(prev[l].0.addr, l)) && self.mem.tower(prev[l].0.addr)[l] == (
            x,
            0usize,
        ) by {
            let j = pos[l];
            self.lemma_pred(l, j);
            self.lemma_elem(l, j);
            if j > 0 {
                self.lemma_elem(l, j - 1);
            }
        }
    }

    /// The unlinking of the node at `x` has come down to level `i`: the
    /// levels from `i` to `height` had the node behind their recorded
    /// predecessors and link it no more, its count is lower by their number,
    /// and the levels below `i` are what they were.
    #[verifier::opaque]
    pub open(crate) spec fn unlinking(
        self,
        old: Self,
        x: usize,
        prev: Seq<(NodeRef, Option<NodeRef>)>,
        height: int,
        i: int,
    ) -> bool {
        &&& prev.len() == HEIGHT
        &&& 0 <= i <= height <= HEIGHT
        &&& self.mem.live(x)
        &&& self.mem.tag(x, 0) == 1
        &&& self.mem.tower(x).len() == height
        &&& self.helped(old)
        &&& (forall|l: int|
            0 <= l < i ==> ((#[trigger] prev[l]).0.addr == HEAD_ADDR || self.mem.linked(
                prev[l].0.addr,
                l,
            )) && self.mem.tower(prev[l].0.addr)[l] == old.mem.tower(prev[l].0.addr)[l]
                && self.mem.chain(l) == old.mem.chain(l))
        &&& (forall|l: int|
            i <= l < height ==> old.mem.tower((#[trigger] prev[l]).0.addr)[l] == (x, 0usize)
                && !self.mem.linked(x, l))
        &&& self.mem.node(x).spec_refs() == old.mem.node(x).spec_refs() - (height - i)
    }

    /// What the unlinking says of the level that is next.
    pub(crate) proof fn lemma_unlinking_top(
        self,
        old: Self,
        x: usize,
        prev: Seq<(NodeRef, Option<NodeRef>)>,
        height: int,
        i: int,
    )
        requires
            self.inv(),
            self.unlinking(old, x, prev, height, i),
        ensures
            prev.len() == HEIGHT,
            0 <= i <= height <= HEIGHT,
            self.mem.live(x),
            self.mem.valid(x),
            x != NULL,
            self.mem.tag(x, 0) == 1,
            self.mem.tower(x).len() == height,
            self.helped(old),
            self.mem.node(x).spec_refs() == old.mem.node(x).spec_refs() - (height - i),
            i > 0 ==> (prev[i - 1].0.addr == HEAD_ADDR || self.mem.linked(prev[i - 1].0.addr, i - 1))
                && self.mem.tower(prev[i - 1].0.addr)[i - 1] == old.mem.tower(
                prev[i - 1].0.addr,
            )[i - 1],
            forall|l: int| i <= l < height ==> !(#[trigger] self.mem.linked(x, l)),
            forall|l: int|
                i <= l < height ==> old.mem.tower((#[trigger] prev[l]).0.addr)[l] == (x, 0usize),
            forall|l: int| 0 <= l < i ==> (self.mem.linked(x, l) <==> #[trigger] old.mem.linked(x, l)),
    {
        reveal(SkipList::unlinking);
        self.mem.lemma_live_addr(x);
        assert forall|l: int| 0 <= l < i implies (self.mem.linked(x, l) <==> #[trigger] old.mem.linked(
            x,
            l,
        )) by {
            let a = prev[l].0.addr;
            assert(a == HEAD_ADDR || self.mem.linked(a, l));
            assert(self.mem.chain(l) == old.mem.chain(l));
        }
        assert forall|l: int| i <= l < height implies !(#[trigger] self.mem.linked(x, l)) by {
            let a = prev[l].0.addr;
            assert(old.mem.tower(a)[l] == (x, 0usize));
        }
        if i > 0 {
            let a = prev[i - 1].0.addr;
            assert(a == HEAD_ADDR || self.mem.linked(a, i - 1));
        }
    }

    /// The unlinking starts at the top.
    pub(crate) proof fn lemma_unlinking_start(
        self,
        x: usize,
        prev: Seq<(NodeRef, Option<NodeRef>)>,
        height: int,
    )
        requires
            self.inv(),
            prev.len() == HEIGHT,
            self.mem.live(x),
            self.mem.tag(x, 0) == 1,
            height == self.mem.node(x).spec_height(),
            forall|l: int|
                0 <= l < height ==> ((#[trigger] prev[l]).0.addr == HEAD_ADDR || self.mem.linked(
                    prev[l].0.addr,
                    l,
                )),
        ensures
            self.unlinking(self, x, prev, height, height),
    {
        reveal(SkipList::unlinking);
        reveal(SkipList::inv);
        self.lemma_helped_refl();
        assert(self.mem.node_ok(x));
        self.mem.lemma_live_addr(x);
    }

    /// Protection leaves the unlinking where it is.
    pub(crate) proof fn lemma_unlinking_guarded(
        self,
        mid: Self,
        old: Self,
        x: usize,
        prev: Seq<(NodeRef, Option<NodeRef>)>,
        height: int,
        i: int,
    )
        requires
            mid.inv(),
            mid.unlinking(old, x, prev, height, i),
            self.guarded(mid),
        ensures
            self.inv(),
            self.unlinking(old, x, prev, height, i),
    {
        reveal(SkipList::unlinking);
        mid.lemma_helped_refl();
        self.lemma_guarded(mid, mid);
        self.lemma_helped_mem(mid, old);
    }

    /// One level down: the node has left level `i - 1` through its recorded
    /// predecessor.
    pub(crate) proof fn lemma_unlinking_step(
        self,
        mid: Self,
        old: Self,
        x: usize,
        prev: Seq<(NodeRef, Option<NodeRef>)>,
        height: int,
        i: int,
        j: int,
    )
        requires
            total_order::<K>(),
            old.inv(),
            mid.inv(),
            self.inv(),
            mid.unlinking(old, x, prev, height, i),
            i > 0,
            0 <= j < mid.mem.chain(i - 1).len(),
            mid.mem.chain(i - 1)[j] == x,
            prev[i - 1].0.addr == mid.mem.pred_at(i - 1, j),
            mid.mem.tower(prev[i - 1].0.addr)[i - 1] == (x, 0usize),
            self.unlinked(mid, i - 1, j),
        ensures
            self.unlinking(old, x, prev, height, i - 1),
            self.helped(mid),
            self.garbage.hazards@ == mid.garbage.hazards@,
    {
        reveal(SkipList::unlinking);
        self.lemma_kept_step(mid, i - 1, j);
        self.lemma_helped_trans(mid, old);
        reveal(SkipList::unlinked);
        reveal(SkipList::inv);
        let l0 = i - 1;
        let p = mid.mem.pred_at(l0, j);
        mid.mem.lemma_live_addrs();
        assert(mid.mem.chain_ok(l0));
        mid.mem.lemma_chain_distinct(l0);
        assert(mid.mem.node_ok(x));
        assert forall|l: int| 0 <= l < l0 implies ((#[trigger] prev[l]).0.addr == HEAD_ADDR
            || self.mem.linked(prev[l].0.addr, l)) && self.mem.tower(prev[l].0.addr)[l]
            == old.mem.tower(prev[l].0.addr)[l] && self.mem.chain(l) == old.mem.chain(l) by {
            let a = prev[l].0.addr;
            assert(self.mem.chain(l) == mid.mem.chain(l));
            mid.lemma_at_level(a, l);
            assert(mid.mem.valid(a));
            assert(self.mem.next(a, l) == mid.mem.next(a, l));
            if a == HEAD_ADDR {
                assert(self.mem.tag(a, l) == mid.mem.tag(a, l));
            } else if a == x {
                assert(self.mem.tag(a, l) == mid.mem.tag(a, l));
            } else {
                assert(self.mem.node_same(mid.mem, a));
                assert(self.mem.tag(a, l) == mid.mem.tag(a, l));
            }
            assert(self.mem.tower(a)[l] == mid.mem.tower(a)[l]);
        }
        assert forall|l: int| l0 <= l < height implies old.mem.tower((#[trigger] prev[l]).0.addr)[l]
            == (x, 0usize) && !self.mem.linked(x, l) by {
            let a = prev[l].0.addr;
            if l == l0 {
                crate::shape::lemma_remove_contains(mid.mem.chain(l0), j, x);
                assert(mid.mem.tower(a)[l] == old.mem.tower(a)[l]);
            } else {
                assert(old.mem.tower(a)[l] == (x, 0usize));
                assert(self.mem.chain(l) == mid.mem.chain(l));
                assert(!mid.mem.linked(x, l));
            }
        }
        assert(self.mem.tag(x, 0) == mid.mem.tag(x, 0));
    }

    /// A swap that failed leaves the unlinking where it is.
    pub(crate) proof fn lemma_unlinking_same(
        self,
        mid: Self,
        old: Self,
        x: usize,
        prev: Seq<(NodeRef, Option<NodeRef>)>,
        height: int,
        i: int,
    )
        requires
            old.inv(),
            mid.inv(),
            self.inv(),
            mid.unlinking(old, x, prev, height, i),
            self.same(mid),
        ensures
            self.unlinking(old, x, prev, height, i),
            self.state == mid.state,
            self.garbage.hazards@ == mid.garbage.hazards@,
    {
        reveal(SkipList::unlinking);
        reveal(SkipList::same);
        reveal(SkipList::inv);
        mid.mem.lemma_live_addrs();
        self.mem.lemma_live_addrs();
        assert forall|a: usize, k: int|
            mid.mem.valid(a) && 0 <= k < mid.mem.tower(a).len() implies #[trigger] self.mem.tower(
            a,
        )[k] == mid.mem.tower(a)[k] by {
            assert(self.mem.next(a, k) == mid.mem.next(a, k));
            if a != HEAD_ADDR {
                assert(self.mem.node_same(mid.mem, a));
            }
            assert(self.mem.tag(a, k) == mid.mem.tag(a, k));
        }
        assert(self.helped(mid)) by {
            reveal(SkipList::helped);
            reveal(SkipList::kept);
            assert forall|a: usize| #[trigger] self.mem.live(a) implies mid.mem.live(a)
                && self.mem.node_same_but_refs(mid.mem, a) by {
                assert(self.mem.node_same(mid.mem, a));
            }
            assert forall|a: usize| #[trigger] mid.mem.live(a) implies self.mem.live(a)
                && self.mem.node(a).spec_refs() == mid.mem.node(a).spec_refs() by {
                assert(self.mem.node_same(mid.mem, a));
            }
            assert forall|a: usize, k: int| 0 <= k < HEIGHT implies (#[trigger] self.mem.linked(
                a,
                k,
            ) <==> mid.mem.linked(a, k)) by {
                assert(self.mem.chain(k) == mid.mem.chain(k));
            }
        }
        self.lemma_helped_trans(mid, old);
        assert forall|l: int| 0 <= l < i implies ((#[trigger] prev[l]).0.addr == HEAD_ADDR
            || self.mem.linked(prev[l].0.addr, l)) && self.mem.tower(prev[l].0.addr)[l]
            == old.mem.tower(prev[l].0.addr)[l] && self.mem.chain(l) == old.mem.chain(l) by {
            let a = prev[l].0.addr;
            assert(self.mem.chain(l) == mid.mem.chain(l));
            mid.lemma_at_level(a, l);
        }
        assert forall|l: int| i <= l < height implies old.mem.tower((#[trigger] prev[l]).0.addr)[l]
            == (x, 0usize) && !self.mem.linked(x, l) by {
            let a = prev[l].0.addr;
            assert(old.mem.tower(a)[l] == (x, 0usize));
            assert(self.mem.chain(l) == mid.mem.chain(l));
            assert(!mid.mem.linked(x, l));
        }
        assert(mid.mem.node_ok(x));
        assert(self.mem.node_same(mid.mem, x));
        assert(self.mem.live(x));
        assert(self.mem.tag(x, 0) == mid.mem.tag(x, 0));
        assert(self.mem.tower(x).len() == mid.mem.tower(x).len());
        assert(self.mem.node(x).spec_refs() == mid.mem.node(x).spec_refs());
        assert(self.helped(old));
    }

    /// Unlinks the tagged node from the levels below its height, from the
    /// top down: at each level the recorded predecessor's pointer is swapped
    /// from the node to the node's successor, and the node loses a
    /// reference; with its last reference it is retired and the unlinking
    /// stops. Then the length goes down by one and the reclamation is asked
    /// to free what it can.
    ///
    /// A swap fails where the recorded predecessor's pointer does not hold
    /// the node without a tag. That ends the unlinking with the level above
    /// as the error: the levels above stay unlinked, the length stays, and
    /// nothing is reclaimed.
    pub(crate) fn unlink(
        &mut self,
        node: &NodeRef,
        height: usize,
        previous_nodes: &Vec<(NodeRef, Option<NodeRef>)>,
    ) -> (r: Result<(), usize>)
        requires
            total_order::<K>(),
            old(self).inv(),
            old(self).mem.live(node.addr),
            old(self).mem.tag(node.addr, 0) == 1,
            height == old(self).mem.node(node.addr).spec_height(),
            previous_nodes@.len() == HEIGHT,
            forall|l: int|
                0 <= l < height
                    ==> ((#[trigger] previous_nodes@[l]).0.addr == HEAD_ADDR || old(self).mem.linked(previous_nodes@[l].0.addr, l)),
            old(self).garbage.protects(node.addr),
            old(self).state.len > 0,
        ensures
            final(self).inv(),
            final(self).kept(*old(self)),
            final(self).mem.live(node.addr),
            final(self).garbage.protects(node.addr),
            match r {
                Ok(_) => {
                    &&& final(self).state.len == old(self).state.len - 1
                    &&& final(self).mem.node(node.addr).spec_refs() == 0
                    &&& final(self).garbage.holds(node.addr)
                    &&& forall|l: int| 0 <= l < HEIGHT ==> !(#[trigger] final(self).mem.linked(
                        node.addr,
                        l,
                    ))
                    &&& exists|m: int|
                        #[trigger] old(self).fresh_from(node.addr, previous_nodes@, height as int, m)
                },
                Err(e) => {
                    &&& 1 <= e <= height
                    &&& old(self).mem.tower(previous_nodes@[e - 1].0.addr)[e - 1] != (
                        node.addr,
                        0usize,
                    )
                    &&& (forall|l: int|
                        e <= l < height ==> old(self).mem.tower(
                            (#[trigger] previous_nodes@[l]).0.addr,
                        )[l] == (node.addr, 0usize))
                    &&& (forall|l: int|
                        e <= l < height ==> !(#[trigger] final(self).mem.linked(node.addr, l)))
                    &&& (forall|l: int|
                        0 <= l < e
                            ==> (final(self).mem.linked(node.addr, l) <==> #[trigger] old(self).mem.linked(node.addr, l)))
                    &&& final(self).mem.node(node.addr).spec_refs() == old(self).mem.node(
                        node.addr,
                    ).spec_refs() - (height - e)
                    &&& final(self).state.len == old(self).state.len
                    &&& final(self).helped(*old(self))
                },
            },
    {
        let ghost x = node.addr;
        let ghost h = height as int;
        let mut i: usize = height;
        let mut done = false;
        proof {
            self.lemma_unlinking_start(x, previous_nodes@, h);
            reveal(SkipList::inv);
            assert(self.mem.node_ok(x));
        }
        while i > 0 && !done
            invariant
                total_order::<K>(),
                old(self).inv(),
                self.inv(),
                self.unlinking(*old(self), x, previous_nodes@, h, i as int),
                self.state.len == old(self).state.len,
                self.garbage.protects(x),
                x == node.addr,
                h == height,
                1 <= h <= HEIGHT,
                i <= height,
                done ==> self.mem.node(x).spec_refs() == 0 && i < height,
            decreases i,
        {
            let ghost start = *self;
            proof {
                self.lemma_unlinking_top(*old(self), x, previous_nodes@, h, i as int);
            }
            let new_next = self.protect_next(node.addr, i - 1);
            let ghost one = *self;
            let me = self.protect_raw(node.addr);
            proof {
                self.lemma_guarded_trans(one, start);
                self.lemma_unlinking_guarded(start, *old(self), x, previous_nodes@, h, i as int);
                self.lemma_unlinking_top(*old(self), x, previous_nodes@, h, i as int);
            }
            let ghost mid = *self;
            let ghost j = self.mem.chain(i - 1).index_of(x);
            match self.unlink_level(&previous_nodes[i - 1].0, me, new_next, i - 1, Ghost(j)) {
                Ok(_) => {
                    proof {
                        self.lemma_unlinking_step(
                            mid,
                            *old(self),
                            x,
                            previous_nodes@,
                            h,
                            i as int,
                            j,
                        );
                        self.lemma_helped_kept(mid);
                    }
                },
                Err(_) => {
                    proof {
                        self.lemma_unlinking_same(mid, *old(self), x, previous_nodes@, h, i as int);
                        self.lemma_unlinking_top(*old(self), x, previous_nodes@, h, i as int);
                        self.lemma_helped_kept(*old(self));
                        reveal(SkipList::helped);
                    }
                    return Err(i);
                },
            }
            i -= 1;
            proof {
                self.lemma_unlinking_top(*old(self), x, previous_nodes@, h, i as int);
            }
            if self.mem.node_ref(node.addr).refs() == 0 {
                done = true;
            }
        }
        proof {
            self.lemma_unlinking_top(*old(self), x, previous_nodes@, h, i as int);
            self.lemma_unlinked_all(*old(self), x, previous_nodes@, h, i as int);
        }
        let ghost unlinked = *self;
        self.state.len = self.state.len - 1;
        proof {
            self.lemma_relen(unlinked);
            unlinked.lemma_helped_kept(*old(self));
            self.lemma_kept_trans(unlinked, *old(self));
        }
        let ghost counted = *self;
        // What was retired before and is free of protection goes now.
        let _ = self.reclaim();
        proof {
            self.lemma_kept_trans(counted, *old(self));
            assert forall|l: int| 0 <= l < HEIGHT implies !(#[trigger] self.mem.linked(x, l)) by {
                assert(self.mem.chain(l) == unlinked.mem.chain(l));
                assert(!unlinked.mem.linked(x, l));
            }
        }
        Ok(())
    }

    /// The levels from `m` up to `height` have the node at `x` behind their
    /// recorded predecessors, without a tag; no level below `m` links it.
    pub open(crate) spec fn fresh_from(
        self,
        x: usize,
        prev: Seq<(NodeRef, Option<NodeRef>)>,
        height: int,
        m: int,
    ) -> bool {
        &&& 0 <= m < height
        &&& (forall|l: int|
            m <= l < height ==> self.mem.tower((#[trigger] prev[l]).0.addr)[l] == (x, 0usize))
        &&& (forall|l: int| 0 <= l < m ==> !(#[trigger] self.mem.linked(x, l)))
    }

    /// An unlinking that has taken the last reference has taken the node
    /// out of every level and retired it.
    pub(crate) proof fn lemma_unlinked_all(
        self,
        old: Self,
        x: usize,
        prev: Seq<(NodeRef, Option<NodeRef>)>,
        height: int,
        i: int,
    )
        requires
            old.inv(),
            self.inv(),
            self.unlinking(old, x, prev, height, i),
            i < height,
            i == 0 || self.mem.node(x).spec_refs() == 0,
            height == old.mem.node(x).spec_height(),
        ensures
            self.mem.node(x).spec_refs() == 0,
            self.garbage.holds(x),
            forall|l: int| 0 <= l < HEIGHT ==> !(#[trigger] self.mem.linked(x, l)),
            forall|l: int| 0 <= l < i ==> !(#[trigger] old.mem.linked(x, l)),
            old.fresh_from(x, prev, height, i),
    {
        self.lemma_unlinking_top(old, x, prev, height, i);
        reveal(SkipList::inv);
        assert(self.mem.node_ok(x));
        self.lemma_helped_node(old, x);
        if i == 0 {
            assert forall|l: int| 0 <= l < HEIGHT implies !(#[trigger] self.mem.linked(x, l)) by {}
            self.mem.lemma_count_prefix(x, HEIGHT as int, 0);
        }
        self.mem.lemma_count_zero(x, HEIGHT as int);
        assert forall|l: int| 0 <= l < i implies !(#[trigger] old.mem.linked(x, l)) by {
            assert(self.mem.linked(x, l) <==> old.mem.linked(x, l));
        }
        reveal(SkipList::helped);
        assert(old.mem.live(x));
    }

    /// The node at `x` is ready to be published from level `from` upward: it
    /// is live, unmarked and untagged, the levels below `from` link it and
    /// its count says so, it is no taller than the greatest height drawn,
    /// and at each level from `from` to its height the recorded pair stands
    /// around the position that brackets its key.
    #[verifier::opaque]
    pub open(crate) spec fn placed(
        self,
        x: usize,
        prev: Seq<(NodeRef, Option<NodeRef>)>,
        pos: Seq<int>,
        from: int,
    ) -> bool {
        &&& prev.len() == HEIGHT
        &&& pos.len() == HEIGHT
        &&& self.mem.live(x)
        &&& self.mem.tag(x, 0) == 0
        &&& !self.mem.node(x).spec_removed()
        &&& 0 <= from <= self.mem.node(x).spec_height() <= self.state.max_height
        &&& self.mem.node(x).spec_refs() == from
        &&& (forall|l: int|
            from <= l < self.mem.node(x).spec_height() ==> self.mem.found_at(
                self.mem.key(x),
                l,
                #[trigger] pos[l],
                prev[l].0.addr,
                addr_or_null(prev[l].1),
            ))
    }

    /// The node recorded behind the key of `x` at level `l` does not follow
    /// it: there is one, and its key is not greater.
    pub open(crate) spec fn blocked(
        self,
        x: usize,
        prev: Seq<(NodeRef, Option<NodeRef>)>,
        l: int,
    ) -> bool {
        addr_or_null(prev[l].1) != NULL && !lt(self.mem.key(x), self.mem.key(addr_or_null(prev[l].1)))
    }

    /// Whether the node recorded behind the key of `node` at `level` does
    /// not follow it.
    pub(crate) fn blocked_at(
        &self,
        node: &NodeRef,
        pairs: &Vec<(NodeRef, Option<NodeRef>)>,
        level: usize,
    ) -> (b: bool)
        requires
            total_order::<K>(),
            self.mem.live(node.addr),
            level < pairs@.len(),
            addr_or_null(pairs@[level as int].1) != NULL ==> self.mem.live(
                addr_or_null(pairs@[level as int].1),
            ),
        ensures
            b == self.blocked(node.addr, pairs@, level as int),
    {
        let next_ptr = ptr_or_null(&pairs[level].1);
        next_ptr != NULL && !key_lt(
            &self.mem.node_ref(node.addr).key,
            &self.mem.node_ref(next_ptr).key,
        )
    }

    /// `self` is `old` but for the publishing of the node at `x`: all other
    /// nodes are what they were and linked where they were; `x` is what it
    /// was but for its pointers and its count, and is linked at least where
    /// it was. No node has come or gone.
    #[verifier::opaque]
    pub open(crate) spec fn published(self, old: Self, x: usize) -> bool {
        &&& self.state == old.state
        &&& self.mem.nodes@.len() == old.mem.nodes@.len()
        &&& self.garbage.retired@ == old.garbage.retired@
        &&& (forall|a: usize| #[trigger] old.garbage.protects(a) ==> self.garbage.protects(a))
        &&& (forall|a: usize|
            #![trigger self.mem.live(a)]
            #![trigger old.mem.live(a)]
            self.mem.live(a) <==> old.mem.live(a))
        &&& (forall|a: usize|
            #![trigger self.mem.node(a)]
            old.mem.live(a) && a != x ==> self.mem.node_same(old.mem, a))
        &&& (forall|a: usize, k: int|
            #![trigger self.mem.linked(a, k)]
            #![trigger old.mem.linked(a, k)]
            0 <= k < HEIGHT ==> (old.mem.linked(a, k) ==> self.mem.linked(a, k)) && (
            self.mem.linked(a, k) && a != x ==> old.mem.linked(a, k)))
        &&& (old.mem.live(x) ==> self.mem.node_same_but_refs(old.mem, x))
    }

    /// Nothing published is a publishing.
    pub(crate) proof fn lemma_published_refl(self, x: usize)
        requires
            self.inv(),
        ensures
            self.published(self, x),
    {
        reveal(SkipList::published);
        reveal(SkipList::inv);
        assert forall|a: usize| #[trigger] self.mem.live(a) implies self.mem.node_same(
            self.mem,
            a,
        ) by {}
    }

    /// Publishing goes on.
    pub(crate) proof fn lemma_published_trans(self, mid: Self, old: Self, x: usize)
        requires
            mid.published(old, x),
            self.published(mid, x),
        ensures
            self.published(old, x),
    {
        reveal(SkipList::published);
        assert forall|a: usize|
            #![trigger self.mem.node(a)]
            old.mem.live(a) && a != x implies self.mem.node_same(old.mem, a) by {
            assert(mid.mem.live(a));
            assert(mid.mem.node_same(old.mem, a));
            assert(self.mem.node_same(mid.mem, a));
            assert forall|k: int| 0 <= k < old.mem.tower(a).len() implies #[trigger] self.mem.tag(
                a,
                k,
            ) == old.mem.tag(a, k) by {
                assert(mid.mem.tag(a, k) == old.mem.tag(a, k));
            }
        }
        assert forall|a: usize, k: int| 0 <= k < HEIGHT implies (old.mem.linked(a, k)
            ==> #[trigger] self.mem.linked(a, k)) && (self.mem.linked(a, k) && a != x
            ==> old.mem.linked(a, k)) by {
            if old.mem.linked(a, k) {
                assert(mid.mem.linked(a, k));
            }
            if self.mem.linked(a, k) && a != x {
                assert(mid.mem.linked(a, k));
            }
        }
        if old.mem.live(x) {
            assert(mid.mem.live(x));
            assert(mid.mem.node_same_but_refs(old.mem, x));
            assert(self.mem.node_same_but_refs(mid.mem, x));
            assert forall|k: int| 0 <= k < old.mem.tower(x).len() implies #[trigger] self.mem.tag(
                x,
                k,
            ) == old.mem.tag(x, k) by {
                assert(mid.mem.tag(x, k) == old.mem.tag(x, k));
            }
        }
        assert forall|a: usize| #[trigger]
            old.garbage.protects(a) implies self.garbage.protects(a) by {
            assert(mid.garbage.protects(a));
        }
    }

    /// The recorded pair of level `l` can take the node at `x` between its
    /// two: the predecessor is the head or a node of the level with a smaller
    /// key, and the successor, if there is one, is in memory.
    pub open(crate) spec fn pair_ok(self, x: usize, pair: (NodeRef, Option<NodeRef>), l: int) -> bool {
        &&& (pair.0.addr == HEAD_ADDR || (self.mem.linked(pair.0.addr, l) && lt(
            self.mem.key(pair.0.addr),
            self.mem.key(x),
        )))
        &&& (addr_or_null(pair.1) != NULL ==> self.mem.live(addr_or_null(pair.1)))
    }

    /// The recorded pair of level `l` is out of date: the predecessor's
    /// pointer does not hold the recorded successor without a tag.
    pub open(crate) spec fn outdated(self, prev: Seq<(NodeRef, Option<NodeRef>)>, l: int) -> bool {
        self.mem.tower(prev[l].0.addr)[l] != (addr_or_null(prev[l].1), 0usize)
    }

    /// The publishing of the node at `x` has come up to level `i`: the
    /// levels from `start` to `i` were neither blocked nor out of date and
    /// link the node now, its count is `i`, and the pairs of the levels from
    /// `i` up are what they were.
    #[verifier::opaque]
    pub open(crate) spec fn publishing(
        self,
        old: Self,
        x: usize,
        prev: Seq<(NodeRef, Option<NodeRef>)>,
        start: int,
        i: int,
    ) -> bool {
        &&& prev.len() == HEIGHT
        &&& self.mem.live(x)
        &&& self.mem.tag(x, 0) == 0
        &&& !self.mem.node(x).spec_removed()
        &&& 0 <= start <= i <= self.mem.node(x).spec_height() <= self.state.max_height
        &&& self.mem.node(x).spec_height() == old.mem.node(x).spec_height()
        &&& self.mem.key(x) == old.mem.key(x)
        &&& self.mem.node(x).spec_refs() == i
        &&& self.published(old, x)
        &&& (forall|l: int|
            i <= l < self.mem.node(x).spec_height() ==> self.pair_ok(x, #[trigger] prev[l], l)
                && self.mem.tower(prev[l].0.addr)[l] == old.mem.tower(prev[l].0.addr)[l] && (
            addr_or_null(prev[l].1) != NULL ==> self.mem.key(addr_or_null(prev[l].1))
                == old.mem.key(addr_or_null(prev[l].1))))
        &&& old.cleared(x, prev, start, i)
    }

    /// None of the levels from `start` to `i` is blocked or out of date.
    pub open(crate) spec fn cleared(
        self,
        x: usize,
        prev: Seq<(NodeRef, Option<NodeRef>)>,
        start: int,
        i: int,
    ) -> bool
        decreases i - start,
    {
        if i <= start {
            true
        } else {
            &&& self.cleared(x, prev, start, i - 1)
            &&& !self.blocked(x, prev, i - 1)
            &&& !self.outdated(prev, i - 1)
        }
    }

    /// What being cleared says of one level.
    pub(crate) proof fn lemma_cleared_at(
        self,
        x: usize,
        prev: Seq<(NodeRef, Option<NodeRef>)>,
        start: int,
        i: int,
        l: int,
    )
        requires
            self.cleared(x, prev, start, i),
            start <= l < i,
        ensures
            !self.blocked(x, prev, l),
            !self.outdated(prev, l),
        decreases i - start,
    {
        if l < i - 1 {
            self.lemma_cleared_at(x, prev, start, i - 1, l);
        }
    }

    /// The publishing starts where the node's count stands.
    pub(crate) proof fn lemma_publishing_start(
        self,
        x: usize,
        prev: Seq<(NodeRef, Option<NodeRef>)>,
        start: int,
    )
        requires
            self.inv(),
            prev.len() == HEIGHT,
            self.mem.live(x),
            !self.mem.node(x).spec_removed(),
            self.mem.node(x).spec_refs() == start,
            self.mem.node(x).spec_height() <= self.state.max_height,
            forall|l: int|
                start <= l < self.mem.node(x).spec_height() ==> self.pair_ok(
                    x,
                    #[trigger] prev[l],
                    l,
                ),
        ensures
            self.publishing(self, x, prev, start, start),
    {
        reveal(SkipList::publishing);
        reveal(SkipList::inv);
        self.lemma_published_refl(x);
        assert(self.mem.node_ok(x));
    }

    /// What the publishing says of the levels that are still to come: the
    /// pointers of their recorded predecessors are what they were.
    pub(crate) proof fn lemma_publishing_rest(
        self,
        old: Self,
        x: usize,
        prev: Seq<(NodeRef, Option<NodeRef>)>,
        start: int,
        i: int,
    )
        requires
            self.publishing(old, x, prev, start, i),
        ensures
            forall|l: int|
                i <= l < old.mem.node(x).spec_height() ==> self.mem.tower(
                    (#[trigger] prev[l]).0.addr,
                )[l] == old.mem.tower(prev[l].0.addr)[l],
    {
        reveal(SkipList::publishing);
    }

    /// What the publishing says of the level that is next.
    pub(crate) proof fn lemma_publishing_level(
        self,
        old: Self,
        x: usize,
        prev: Seq<(NodeRef, Option<NodeRef>)>,
        start: int,
        i: int,
    )
        requires
            total_order::<K>(),
            self.inv(),
            self.publishing(old, x, prev, start, i),
        ensures
            prev.len() == HEIGHT,
            self.mem.live(x),
            self.mem.valid(x),
            x != NULL,
            x != HEAD_ADDR,
            crate::tagged::aligned(x),
            !self.mem.node(x).spec_removed(),
            self.mem.tag(x, 0) == 0,
            0 <= start <= i <= self.mem.node(x).spec_height() <= HEIGHT,
            self.mem.node(x).spec_height() == old.mem.node(x).spec_height(),
            self.mem.key(x) == old.mem.key(x),
            self.mem.node(x).spec_refs() == i,
            self.mem.tower(x).len() == self.mem.node(x).spec_height(),
            self.published(old, x),
            i < self.mem.node(x).spec_height() ==> {
                &&& self.mem.tag(x, i) == 0
                &&& !self.mem.linked(x, i)
                &&& self.pair_ok(x, prev[i], i)
                &&& self.mem.valid(prev[i].0.addr)
                &&& prev[i].0.addr != x
                &&& i < self.mem.tower(prev[i].0.addr).len()
                &&& self.mem.tower(prev[i].0.addr)[i] == old.mem.tower(prev[i].0.addr)[i]
                &&& (self.outdated(prev, i) <==> old.outdated(prev, i))
                &&& (self.blocked(x, prev, i) <==> old.blocked(x, prev, i))
                &&& crate::tagged::aligned(addr_or_null(prev[i].1))
            },
            old.cleared(x, prev, start, i),
    {
        reveal(SkipList::publishing);
        reveal(SkipList::inv);
        self.mem.lemma_live_addr(x);
        assert(self.mem.node_ok(x));
        reveal(Memory::live);
        if i < self.mem.node(x).spec_height() {
            assert(self.pair_ok(x, prev[i], i));
            self.lemma_at_level(prev[i].0.addr, i);
            if prev[i].0.addr != HEAD_ADDR {
                lemma_lt_irrefl(self.mem.key(prev[i].0.addr), self.mem.key(x));
            }
        }
    }

    /// Setting the node's own pointer at the next level publishes nothing
    /// yet.
    pub(crate) proof fn lemma_publishing_point(
        self,
        s0: Self,
        old: Self,
        x: usize,
        prev: Seq<(NodeRef, Option<NodeRef>)>,
        start: int,
        i: int,
    )
        requires
            total_order::<K>(),
            s0.inv(),
            s0.publishing(old, x, prev, start, i),
            i < s0.mem.node(x).spec_height(),
            self.state == s0.state,
            self.garbage == s0.garbage,
            self.mem.same_elsewhere(s0.mem, x),
            self.mem.chains == s0.mem.chains,
            self.mem.tower(x) == s0.mem.tower(x).update(i, (addr_or_null(prev[i].1), 0usize)),
            self.mem.node(x).key == s0.mem.node(x).key,
            self.mem.node(x).val == s0.mem.node(x).val,
            self.mem.node(x).state == s0.mem.node(x).state,
        ensures
            self.inv(),
            self.publishing(old, x, prev, start, i),
            self.mem.next(x, i) == addr_or_null(prev[i].1),
    {
        s0.lemma_publishing_level(old, x, prev, start, i);
        reveal(SkipList::publishing);
        reveal(SkipList::inv);
        reveal(SkipList::published);
        s0.mem.lemma_live_addrs();
        s0.mem.lemma_repointed_intro(self.mem, x, i, addr_or_null(prev[i].1));
        s0.mem.lemma_repoint(self.mem, x, i);
        assert forall|k: int| self.state.max_height <= k < HEIGHT implies (
        #[trigger] self.mem.chain(k)).len() == 0 by {
            assert(s0.mem.chain(k).len() == 0);
        }
        assert forall|m: int| 0 <= m < self.garbage.retired@.len() implies self.retired_ok(
            #[trigger] self.garbage.retired@[m],
        ) by {
            let a = s0.garbage.retired@[m];
            assert(s0.retired_ok(a));
            assert(self.mem.node_same(s0.mem, a));
            assert(s0.mem.node_ok(a));
        }
        assert(self.inv());
        assert(self.mem.node_same(s0.mem, x));
        assert forall|a: usize, k: int| 0 <= k < HEIGHT implies (#[trigger] self.mem.linked(a, k)
            <==> s0.mem.linked(a, k)) by {
            assert(self.mem.chain(k) == s0.mem.chain(k));
        }
        assert(self.published(s0, x));
        self.lemma_published_trans(s0, old, x);
        assert forall|l: int| i <= l < self.mem.node(x).spec_height() implies self.pair_ok(
            x,
            #[trigger] prev[l],
            l,
        ) && self.mem.tower(prev[l].0.addr)[l] == old.mem.tower(prev[l].0.addr)[l] && (addr_or_null(
            prev[l].1,
        ) != NULL ==> self.mem.key(addr_or_null(prev[l].1)) == old.mem.key(
            addr_or_null(prev[l].1),
        )) by {
            let a = prev[l].0.addr;
            let n = addr_or_null(prev[l].1);
            assert(s0.pair_ok(x, prev[l], l));
            s0.lemma_at_level(a, l);
            if a != HEAD_ADDR {
                lemma_lt_irrefl(s0.mem.key(a), s0.mem.key(x));
                assert(self.mem.node_same(s0.mem, a));
            }
            assert(self.mem.next(a, l) == s0.mem.next(a, l));
            assert(self.mem.tag(a, l) == s0.mem.tag(a, l));
            if n != NULL {
                assert(self.mem.node_same(s0.mem, n));
            }
        }
    }

    /// Linking the node into the next level goes on with the publishing.
    pub(crate) proof fn lemma_publishing_link(
        self,
        s1: Self,
        mid: Self,
        last: Self,
        old: Self,
        x: usize,
        prev: Seq<(NodeRef, Option<NodeRef>)>,
        start: int,
        i: int,
    )
        requires
            total_order::<K>(),
            s1.inv(),
            s1.publishing(old, x, prev, start, i),
            i < s1.mem.node(x).spec_height(),
            !s1.blocked(x, prev, i),
            !s1.outdated(prev, i),
            s1.mem.next(x, i) == addr_or_null(prev[i].1),
            mid.mem.same_elsewhere(s1.mem, x),
            mid.mem.node(x).key == s1.mem.node(x).key,
            mid.mem.node(x).val == s1.mem.node(x).val,
            mid.mem.node(x).levels == s1.mem.node(x).levels,
            mid.mem.node(x).spec_height() == s1.mem.node(x).spec_height(),
            mid.mem.node(x).spec_removed() == s1.mem.node(x).spec_removed(),
            mid.mem.node(x).spec_refs() == s1.mem.node(x).spec_refs() + 1,
            last.mem.same_elsewhere(mid.mem, prev[i].0.addr),
            last.mem.tower(prev[i].0.addr) == mid.mem.tower(prev[i].0.addr).update(i, (x, 0usize)),
            prev[i].0.addr != HEAD_ADDR ==> last.mem.node(prev[i].0.addr).key == mid.mem.node(
                prev[i].0.addr,
            ).key && last.mem.node(prev[i].0.addr).val == mid.mem.node(prev[i].0.addr).val
                && last.mem.node(prev[i].0.addr).state == mid.mem.node(prev[i].0.addr).state,
            self.mem.nodes == last.mem.nodes,
            self.mem.head == last.mem.head,
            self.mem.chains@ == s1.mem.chains@.update(
                i,
                s1.mem.chain(i).insert(s1.slot_behind(prev[i].0.addr, i), x),
            ),
            self.state == s1.state,
            self.garbage == s1.garbage,
        ensures
            self.inv(),
            self.publishing(old, x, prev, start, i + 1),
    {
        s1.lemma_publishing_level(old, x, prev, start, i);
        reveal(SkipList::publishing);
        reveal(SkipList::inv);
        reveal(SkipList::published);
        s1.mem.lemma_live_addrs();
        self.mem.lemma_same_nodes(last.mem);
        let a0 = prev[i].0.addr;
        let n0 = addr_or_null(prev[i].1);
        let j = s1.slot_behind(a0, i);
        s1.lemma_slot_behind(a0, i);
        assert(s1.mem.next(a0, i) == n0);
        assert(s1.mem.tag(a0, i) == 0);
        assert(s1.mem.node_ok(x));
        assert(s1.mem.fits(i, j, x)) by {
            if j < s1.mem.chain(i).len() {
                s1.lemma_elem(i, j);
            }
            s1.lemma_end(i, j);
        }
        s1.mem.lemma_spliced_in_intro(mid.mem, self.mem, i, j, x);
        s1.mem.lemma_splice_in(self.mem, i, j, x);
        assert forall|k: int| self.state.max_height <= k < HEIGHT implies (
        #[trigger] self.mem.chain(k)).len() == 0 by {
            assert(s1.mem.chain(k).len() == 0);
            assert(self.mem.chain(k) == s1.mem.chain(k));
        }
        assert forall|m: int| 0 <= m < self.garbage.retired@.len() implies self.retired_ok(
            #[trigger] self.garbage.retired@[m],
        ) by {
            let a = s1.garbage.retired@[m];
            assert(s1.retired_ok(a));
            assert(a != x);
            assert(self.mem.node_same(s1.mem, a));
            assert(s1.mem.node_ok(a));
        }
        assert(self.inv());
        assert forall|a: usize, k: int| 0 <= k < HEIGHT implies (s1.mem.linked(a, k)
            ==> #[trigger] self.mem.linked(a, k)) && (self.mem.linked(a, k) && a != x
            ==> s1.mem.linked(a, k)) by {
            if k == i {
                crate::shape::lemma_insert_contains(s1.mem.chain(i), j, x, a);
            } else {
                assert(self.mem.chain(k) == s1.mem.chain(k));
            }
        }
        assert(self.published(s1, x));
        self.lemma_published_trans(s1, old, x);
        assert(self.mem.tag(x, 0) == s1.mem.tag(x, 0));
        assert forall|l: int| i + 1 <= l < self.mem.node(x).spec_height() implies self.pair_ok(
            x,
            #[trigger] prev[l],
            l,
        ) && self.mem.tower(prev[l].0.addr)[l] == old.mem.tower(prev[l].0.addr)[l] && (addr_or_null(
            prev[l].1,
        ) != NULL ==> self.mem.key(addr_or_null(prev[l].1)) == old.mem.key(
            addr_or_null(prev[l].1),
        )) by {
            let a = prev[l].0.addr;
            let n = addr_or_null(prev[l].1);
            assert(s1.pair_ok(x, prev[l], l));
            s1.lemma_at_level(a, l);
            assert(self.mem.chain(l) == s1.mem.chain(l));
            if a != HEAD_ADDR {
                lemma_lt_irrefl(s1.mem.key(a), s1.mem.key(x));
                assert(self.mem.node_same(s1.mem, a));
            }
            assert(self.mem.next(a, l) == s1.mem.next(a, l));
            assert(self.mem.tag(a, l) == s1.mem.tag(a, l));
            if n != NULL && n != x {
                assert(self.mem.node_same(s1.mem, n));
            }
        }
        assert(!old.blocked(x, prev, i) && !old.outdated(prev, i));
        assert(old.cleared(x, prev, start, i + 1));
    }

    /// The position behind the head or a node of level `l`.
    pub open(crate) spec fn slot_behind(self, a: usize, l: int) -> int {
        if a == HEAD_ADDR {
            0
        } else {
            self.mem.chain(l).index_of(a) + 1
        }
    }

    /// The head or a node of a level is the predecessor of the position
    /// behind it.
    pub(crate) proof fn lemma_slot_behind(self, a: usize, l: int)
        requires
            self.inv(),
            0 <= l < HEIGHT,
            a == HEAD_ADDR || self.mem.linked(a, l),
        ensures
            0 <= self.slot_behind(a, l) <= self.mem.chain(l).len(),
            a == self.mem.pred_at(l, self.slot_behind(a, l)),
            self.mem.next(a, l) == self.mem.next_at(l, self.slot_behind(a, l)),
            self.slot_behind(a, l) > 0 ==> self.mem.chain(l)[self.slot_behind(a, l) - 1] == a,
    {
        self.lemma_at_level(a, l);
        self.lemma_pred(l, self.slot_behind(a, l));
    }

    /// A swap that failed, with the reference given back, leaves the
    /// publishing where it was.
    pub(crate) proof fn lemma_publishing_undo(
        self,
        s1: Self,
        mid: Self,
        last: Self,
        old: Self,
        x: usize,
        prev: Seq<(NodeRef, Option<NodeRef>)>,
        start: int,
        i: int,
    )
        requires
            total_order::<K>(),
            s1.inv(),
            s1.publishing(old, x, prev, start, i),
            i < s1.mem.node(x).spec_height(),
            mid.mem.same_elsewhere(s1.mem, x),
            mid.mem.chains == s1.mem.chains,
            mid.mem.node(x).key == s1.mem.node(x).key,
            mid.mem.node(x).val == s1.mem.node(x).val,
            mid.mem.node(x).levels == s1.mem.node(x).levels,
            mid.mem.node(x).spec_height() == s1.mem.node(x).spec_height(),
            mid.mem.node(x).spec_removed() == s1.mem.node(x).spec_removed(),
            mid.mem.node(x).spec_refs() == s1.mem.node(x).spec_refs() + 1,
            last.mem.same_elsewhere(mid.mem, prev[i].0.addr),
            last.mem.chains == mid.mem.chains,
            last.mem.tower(prev[i].0.addr) == mid.mem.tower(prev[i].0.addr),
            prev[i].0.addr != HEAD_ADDR ==> last.mem.node(prev[i].0.addr).key == mid.mem.node(
                prev[i].0.addr,
            ).key && last.mem.node(prev[i].0.addr).val == mid.mem.node(prev[i].0.addr).val
                && last.mem.node(prev[i].0.addr).state == mid.mem.node(prev[i].0.addr).state,
            self.mem.same_elsewhere(last.mem, x),
            self.mem.chains == last.mem.chains,
            self.mem.node(x).key == last.mem.node(x).key,
            self.mem.node(x).val == last.mem.node(x).val,
            self.mem.node(x).levels == last.mem.node(x).levels,
            self.mem.node(x).spec_height() == last.mem.node(x).spec_height(),
            self.mem.node(x).spec_removed() == last.mem.node(x).spec_removed(),
            self.mem.node(x).spec_refs() == last.mem.node(x).spec_refs() - 1,
            self.state == s1.state,
            self.garbage == s1.garbage,
        ensures
            self.inv(),
            self.publishing(old, x, prev, start, i),
    {
        s1.lemma_publishing_level(old, x, prev, start, i);
        reveal(SkipList::publishing);
        reveal(SkipList::inv);
        reveal(SkipList::published);
        s1.mem.lemma_live_addrs();
        mid.mem.lemma_live_addrs();
        last.mem.lemma_live_addrs();
        self.mem.lemma_live_addrs();
        let p = prev[i].0.addr;
        assert(p != x);
        assert forall|a: usize| a != NULL implies (#[trigger] self.mem.live(a) <==> s1.mem.live(a))
            && (s1.mem.live(a) ==> self.mem.node_same(s1.mem, a)) by {
            if s1.mem.live(a) {
                if a == x {
                    assert(last.mem.node(x) == mid.mem.node(x));
                    assert forall|k: int| 0 <= k < s1.mem.tower(a).len() implies #[trigger] self.mem.tag(
                        a,
                        k,
                    ) == s1.mem.tag(a, k) by {}
                } else if a == p {
                    assert(mid.mem.node(a) == s1.mem.node(a));
                    assert(self.mem.node(a) == last.mem.node(a));
                    assert forall|k: int| 0 <= k < s1.mem.tower(a).len() implies #[trigger] self.mem.tag(
                        a,
                        k,
                    ) == s1.mem.tag(a, k) by {}
                } else {
                    assert(mid.mem.node(a) == s1.mem.node(a));
                    assert(last.mem.node(a) == mid.mem.node(a));
                    assert(self.mem.node(a) == last.mem.node(a));
                }
            }
        }
        assert forall|a: usize, k: int|
            s1.mem.valid(a) && 0 <= k < s1.mem.tower(a).len() implies #[trigger] self.mem.next(a, k)
            == s1.mem.next(a, k) by {
            if a == x {
                assert(last.mem.node(x) == mid.mem.node(x));
            } else if a == p {
                if a != HEAD_ADDR {
                    assert(mid.mem.node(a) == s1.mem.node(a));
                    assert(self.mem.node(a) == last.mem.node(a));
                }
            } else if a == HEAD_ADDR {
            } else {
                assert(mid.mem.node(a) == s1.mem.node(a));
                assert(last.mem.node(a) == mid.mem.node(a));
                assert(self.mem.node(a) == last.mem.node(a));
            }
        }
        assert(self.mem.head_same(s1.mem)) by {
            assert forall|k: int| 0 <= k < s1.mem.tower(HEAD_ADDR).len() implies #[trigger] self.mem.tag(
                HEAD_ADDR,
                k,
            ) == s1.mem.tag(HEAD_ADDR, k) by {}
        }
        assert(self.mem.unchanged(s1.mem));
        s1.mem.lemma_unchanged_inv(self.mem);
        self.lemma_inv_unchanged(s1);
        assert forall|a: usize, k: int| 0 <= k < HEIGHT implies (#[trigger] self.mem.linked(a, k)
            <==> s1.mem.linked(a, k)) by {
            assert(self.mem.chain(k) == s1.mem.chain(k));
        }
        assert(self.published(s1, x));
        self.lemma_published_trans(s1, old, x);
        assert(s1.mem.node_ok(x));
        assert forall|l: int| i <= l < self.mem.node(x).spec_height() implies self.pair_ok(
            x,
            #[trigger] prev[l],
            l,
        ) && self.mem.tower(prev[l].0.addr)[l] == old.mem.tower(prev[l].0.addr)[l] && (addr_or_null(
            prev[l].1,
        ) != NULL ==> self.mem.key(addr_or_null(prev[l].1)) == old.mem.key(
            addr_or_null(prev[l].1),
        )) by {
            let a = prev[l].0.addr;
            let n = addr_or_null(prev[l].1);
            assert(s1.pair_ok(x, prev[l], l));
            s1.lemma_at_level(a, l);
            if a != HEAD_ADDR {
                assert(self.mem.node_same(s1.mem, a));
            }
            assert(self.mem.next(a, l) == s1.mem.next(a, l));
            assert(self.mem.tag(a, l) == s1.mem.tag(a, l));
            if n != NULL {
                assert(self.mem.node_same(s1.mem, n));
            }
        }
    }

    /// Publishes the node level by level, from `start_height` up to its
    /// height. At each level the node's own pointer is set to the recorded
    /// successor, the node gains a reference, and the recorded
    /// predecessor's pointer is swapped from the successor to the node.
    ///
    /// Nothing is published for a node that is marked removed. The
    /// publishing ends with the level as the error at the first level whose
    /// recorded successor does not follow the node's key, and at the first
    /// level whose recorded pair is out of date: the swap fails there, and
    /// the reference is given back. The levels below stay linked, and the
    /// node's count is their number; from that level up no pointer of a
    /// recorded predecessor has changed.
    pub(crate) fn link_nodes(
        &mut self,
        new_node: &NodeRef,
        previous_nodes: &Vec<(NodeRef, Option<NodeRef>)>,
        start_height: usize,
    ) -> (r: Result<(), usize>)
        requires
            total_order::<K>(),
            old(self).inv(),
            old(self).mem.live(new_node.addr),
            old(self).mem.node(new_node.addr).spec_refs() == start_height,
            old(self).mem.node(new_node.addr).spec_height() <= old(self).state.max_height,
            previous_nodes@.len() == HEIGHT,
            forall|l: int|
                start_height <= l < old(self).mem.node(new_node.addr).spec_height()
                    ==> old(self).pair_ok(new_node.addr, #[trigger] previous_nodes@[l], l),
        ensures
            final(self).inv(),
            final(self).published(*old(self), new_node.addr),
            final(self).mem.live(new_node.addr),
            final(self).state == old(self).state,
            old(self).mem.node(new_node.addr).spec_removed() ==> r.is_ok()
                && final(self).same_memory(*old(self)),
            !old(self).mem.node(new_node.addr).spec_removed() ==> {
                let stop = final(self).mem.node(new_node.addr).spec_refs() as int;
                let height = old(self).mem.node(new_node.addr).spec_height() as int;
                &&& start_height <= stop <= height
                &&& final(self).mem.tag(new_node.addr, 0) == 0
                &&& old(self).cleared(new_node.addr, previous_nodes@, start_height as int, stop)
                &&& (stop == height ==> r.is_ok())
                &&& (stop < height ==> r == Err::<(), usize>(stop as usize))
                &&& (forall|l: int|
                    stop <= l < height ==> final(self).mem.tower(
                        (#[trigger] previous_nodes@[l]).0.addr,
                    )[l] == old(self).mem.tower(previous_nodes@[l].0.addr)[l])
                &&& (stop < height && !old(self).blocked(new_node.addr, previous_nodes@, stop)
                    ==> old(self).outdated(previous_nodes@, stop))
            },
    {
        let ghost x = new_node.addr;
        proof {
            self.lemma_published_refl(x);
        }
        if self.mem.node_ref(new_node.addr).removed() {
            return Ok(());
        }
        proof {
            self.lemma_publishing_start(x, previous_nodes@, start_height as int);
            self.lemma_publishing_level(*old(self), x, previous_nodes@, start_height as int, start_height as int);
        }
        let height = self.mem.node_ref(new_node.addr).height();
        let mut i: usize = start_height;
        let mut stopped = false;
        let mut unreferenced = false;
        while i < height && !stopped && !unreferenced
            invariant
                total_order::<K>(),
                !unreferenced,
                x == new_node.addr,
                self.inv(),
                self.publishing(*old(self), x, previous_nodes@, start_height as int, i as int),
                self.state == old(self).state,
                !old(self).mem.node(x).spec_removed(),
                start_height <= i <= height,
                height == old(self).mem.node(x).spec_height(),
                height <= HEIGHT,
                !stopped,
            decreases height - i,
        {
            let ghost s0 = *self;
            proof {
                self.lemma_publishing_level(*old(self), x, previous_nodes@, start_height as int, i as int);
                self.lemma_publishing_rest(*old(self), x, previous_nodes@, start_height as int, i as int);
            }
            let next_ptr = ptr_or_null(&previous_nodes[i].1);
            let curr_next = self.mem.load(new_node.addr, i).0;
            if self.mem.node_ref(new_node.addr).removed() {
                stopped = true;
            } else {
                // The node goes in front of its recorded successor only if that
                // one follows it in key order.
                let follows = next_ptr == NULL || key_lt(
                    &self.mem.node_ref(new_node.addr).key,
                    &self.mem.node_ref(next_ptr).key,
                );
                if !follows {
                    return Err(i);
                } else {
                    if self.mem.compare_exchange(new_node.addr, i, curr_next, next_ptr).is_err() {
                        return Err(i);
                    }
                    proof {
                        self.lemma_publishing_point(
                            s0,
                            *old(self),
                            x,
                            previous_nodes@,
                            start_height as int,
                            i as int,
                        );
                        self.lemma_publishing_level(
                            *old(self),
                            x,
                            previous_nodes@,
                            start_height as int,
                            i as int,
                        );
                    }
                    let ghost s1 = *self;
                    // Level 0 gives the node its first reference. A higher level adds
                    // one only while the node still has some.
                    let referenced = if i == 0 {
                        let _ = self.mem.node_mut(new_node.addr).add_ref();
                        true
                    } else {
                        self.mem.node_mut(new_node.addr).try_add_ref().is_ok()
                    };
                    if !referenced {
                        // Nothing links the node any more: no further level is
                        // published.
                        unreferenced = true;
                    } else {
                        let ghost mid = *self;
                        proof {
                            mid.mem.lemma_live_addrs();
                            s1.mem.lemma_live_addrs();
                            if previous_nodes@[i as int].0.addr != HEAD_ADDR {
                                assert(mid.mem.node(previous_nodes@[i as int].0.addr) == s1.mem.node(
                                    previous_nodes@[i as int].0.addr,
                                ));
                            }
                        }
                        // The predecessor's pointer goes from the successor to the node.
                        if self.mem.compare_exchange(
                            previous_nodes[i].0.addr,
                            i,
                            next_ptr,
                            new_node.addr,
                        ).is_err() {
                            let ghost last = *self;
                            let _ = self.mem.node_mut(new_node.addr).sub_ref();
                            proof {
                                last.mem.lemma_live_addrs();
                                self.lemma_publishing_undo(
                                    s1,
                                    mid,
                                    last,
                                    *old(self),
                                    x,
                                    previous_nodes@,
                                    start_height as int,
                                    i as int,
                                );
                                self.lemma_publishing_level(
                                    *old(self),
                                    x,
                                    previous_nodes@,
                                    start_height as int,
                                    i as int,
                                );
                                self.lemma_publishing_rest(
                                    *old(self),
                                    x,
                                    previous_nodes@,
                                    start_height as int,
                                    i as int,
                                );
                            }
                            return Err(i);
                        }
                        let ghost last = *self;
                        proof {
                            self.mem.chains@ = s1.mem.chains@.update(
                                i as int,
                                s1.mem.chain(i as int).insert(
                                    s1.slot_behind(previous_nodes@[i as int].0.addr, i as int),
                                    x,
                                ),
                            );
                        }
                        proof {
                            self.lemma_publishing_link(
                                s1,
                                mid,
                                last,
                                *old(self),
                                x,
                                previous_nodes@,
                                start_height as int,
                                i as int,
                            );
                        }
                        i += 1;
                    }
                }
            }
        }
        proof {
            self.lemma_publishing_level(*old(self), x, previous_nodes@, start_height as int, i as int);
        }
        // A node that was marked removed while its levels were linked may have
        // levels that the remover did not see: a search unlinks them.
        if self.mem.node_ref(new_node.addr).removed() {
            let _ = self.find_probe(&Probe::Node(new_node.addr), false);
        }
        Ok(())
    }

    /// What a draw does to the list: it advances the seed and raises the
    /// greatest height drawn to the height it yields, and touches nothing
    /// else.
    pub(crate) proof fn lemma_draws(pre: Self, post: Self, height: usize)
        requires
            <Self as GeneratesHeight>::draws(pre, post, height),
        ensures
            post.mem == pre.mem,
            post.garbage == pre.garbage,
            post.state.len == pre.state.len,
            post.state.seed == xorshift(pre.state.seed),
            height == pre.next_height(),
            post.state.max_height == if height > pre.state.max_height {
                height
            } else {
                pre.state.max_height
            },
    {
    }

    /// Raising the greatest height drawn leaves the list in order.
    pub(crate) proof fn lemma_raise(self, old: Self)
        requires
            old.inv(),
            self.mem == old.mem,
            self.garbage == old.garbage,
            old.state.max_height <= self.state.max_height <= HEIGHT,
        ensures
            self.inv(),
    {
        reveal(SkipList::inv);
    }

    /// A list in order can draw.
    pub(crate) proof fn lemma_can_draw(self)
        requires
            self.inv(),
        ensures
            self.can_draw(),
    {
        reveal(SkipList::inv);
    }
}

impl<K: Ord, V> GeneratesHeight for SkipList<K, V> {
    closed spec fn draws(pre: Self, post: Self, height: usize) -> bool {
        &&& post.mem == pre.mem
        &&& post.garbage == pre.garbage
        &&& post.state.len == pre.state.len
        &&& post.state.seed == xorshift(pre.state.seed)
        &&& height == pre.next_height()
        &&& post.state.max_height == if height > pre.state.max_height {
            height
        } else {
            pre.state.max_height
        }
    }

    closed spec fn can_draw(&self) -> bool {
        self.mem.head.levels@.len() == HEIGHT
    }

    fn gen_height(&mut self) -> (height: usize) {
        self.draw_height()
    }
}

} // verus!
