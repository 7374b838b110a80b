use vstd::prelude::*;
use crate::node::{Head, Node, HEIGHT};
use crate::order::lt;
use crate::tagged::{aligned, MaybeTagged, NULL, TAG_MASK};

verus! {

/// Address of the head sentinel.
pub const HEAD_ADDR: usize = 4;

/// Address of the first node slot; slot `i` has address `FIRST_ADDR + 4 * i`.
pub const FIRST_ADDR: usize = 8;

/// The slot that holds the node at `addr`.
pub open spec fn slot_of(addr: usize) -> int {
    addr as int / 4 - 2
}

/// The address of the node in `slot`.
pub open spec fn addr_of(slot: int) -> usize {
    ((slot + 2) * 4) as usize
}

/// The memory in which the list lives: the head, the node slots, and for
/// every level the order in which that level links its nodes.
///
/// A node is known by its address, a multiple of four that names its slot.
/// A slot is empty once its node has been freed.
pub struct Memory<K, V> {
    pub head: Head,
    pub nodes: Vec<Option<Node<K, V>>>,
    pub chains: Ghost<Seq<Seq<usize>>>,
}

impl<K, V> Memory<K, V> {
    /// `a` is the address of a slot.
    pub open spec fn is_node(self, a: usize) -> bool {
        &&& aligned(a)
        &&& a >= FIRST_ADDR
        &&& slot_of(a) < self.nodes@.len()
    }

    /// `a` is the address of a node that has not been freed.
    #[verifier::opaque]
    pub open spec fn live(self, a: usize) -> bool {
        self.is_node(a) && self.nodes@[slot_of(a)].is_some()
    }

    /// The node at `a`.
    #[verifier::opaque]
    pub open spec fn node(self, a: usize) -> Node<K, V> {
        self.nodes@[slot_of(a)].unwrap()
    }

    /// `a` is the head or a live node.
    pub open spec fn valid(self, a: usize) -> bool {
        a == HEAD_ADDR || self.live(a)
    }

    /// The tower at `a`, the head's or a node's.
    pub open spec fn tower(self, a: usize) -> Seq<(usize, usize)> {
        if a == HEAD_ADDR {
            self.head.levels@
        } else {
            self.node(a).levels@
        }
    }

    /// The address that `a` points to at level `l`.
    pub open spec fn next(self, a: usize, l: int) -> usize {
        self.tower(a)[l].0
    }

    /// The tag of `a`'s pointer at level `l`.
    pub open spec fn tag(self, a: usize, l: int) -> usize {
        self.tower(a)[l].1
    }

    /// The nodes that level `l` links, in order, the head left out.
    pub open spec fn chain(self, l: int) -> Seq<usize> {
        self.chains@[l]
    }

    /// Level `l` links the node at `a`.
    pub open spec fn linked(self, a: usize, l: int) -> bool {
        self.chain(l).contains(a)
    }

    /// Number of levels below `n` that link the node at `a`.
    pub open spec fn link_count(self, a: usize, n: int) -> int
        decreases n,
    {
        if n <= 0 {
            0
        } else {
            self.link_count(a, n - 1) + if self.linked(a, n - 1) {
                1int
            } else {
                0int
            }
        }
    }

    /// The predecessor of position `j` at level `l`: the head in front of
    /// position 0, else the node before.
    pub open spec fn pred_at(self, l: int, j: int) -> usize {
        if j <= 0 {
            HEAD_ADDR
        } else {
            self.chain(l)[j - 1]
        }
    }

    /// The node at position `j` of level `l`, or null behind the last.
    pub open spec fn next_at(self, l: int, j: int) -> usize {
        if 0 <= j < self.chain(l).len() {
            self.chain(l)[j]
        } else {
            NULL
        }
    }

    /// Every node but the one at `a` is in `self` what it is in `old`.
    pub open spec fn same_nodes_but(self, old: Self, a: usize) -> bool {
        forall|b: usize|
            #![trigger self.live(b)]
            #![trigger self.node(b)]
            b != a ==> (self.live(b) <==> old.live(b)) && (old.live(b) ==> self.node(b) == old.node(
                b,
            ))
    }

    /// `self` holds what `old` holds, except for the record at `a`, the
    /// order of the levels left aside.
    pub open spec fn same_elsewhere(self, old: Self, a: usize) -> bool {
        &&& self.nodes@.len() == old.nodes@.len()
        &&& self.same_nodes_but(old, a)
        &&& (a != HEAD_ADDR ==> self.head == old.head)
        &&& (self.live(a) <==> old.live(a))
    }

    /// A live node has the address of a slot: aligned, and neither null nor
    /// the head's.
    pub proof fn lemma_live_addr(self, a: usize)
        requires
            self.live(a),
        ensures
            self.is_node(a),
            a != HEAD_ADDR,
            a != NULL,
    {
        reveal(Memory::live);
    }

    /// Which nodes are live, and what they hold, does not depend on the
    /// order of the levels.
    pub proof fn lemma_same_nodes(self, other: Self)
        requires
            self.nodes == other.nodes,
            self.head == other.head,
        ensures
            forall|a: usize| #[trigger] self.live(a) == other.live(a),
            forall|a: usize| #[trigger] self.node(a) == other.node(a),
            forall|a: usize| #[trigger] self.tower(a) == other.tower(a),
    {
        reveal(Memory::live);
        reveal(Memory::node);
    }

    /// The height that a proposal is lowered to: it goes down until it is 1
    /// or the level two below it holds a node, so that no tower rises more
    /// than one level above the populated ones.
    pub open spec fn capped(self, height: int) -> int
        decreases height,
    {
        if height >= 2 && self.next(HEAD_ADDR, height - 2) == NULL {
            self.capped(height - 1)
        } else {
            height
        }
    }

    /// Capping lowers a height, and never below 1.
    pub proof fn lemma_capped(self, height: int)
        requires
            1 <= height,
        ensures
            1 <= self.capped(height) <= height,
        decreases height,
    {
        if height >= 2 && self.next(HEAD_ADDR, height - 2) == NULL {
            self.lemma_capped(height - 1);
        }
    }

    /// Every live node has the address of a slot.
    pub proof fn lemma_live_addrs(self)
        ensures
            forall|a: usize| #[trigger] self.live(a) ==> self.is_node(a) && a != HEAD_ADDR && a != NULL,
    {
        reveal(Memory::live);
    }

    /// An empty memory: a head with null pointers and no node.
    pub fn new() -> (mem: Self)
        ensures
            mem.nodes@.len() == 0,
            mem.head.levels@ == Seq::new(HEIGHT as nat, |i: int| (NULL, 0usize)),
            mem.chains@ == Seq::new(HEIGHT as nat, |i: int| Seq::<usize>::empty()),
    {
        Memory {
            head: Head::new(),
            nodes: Vec::new(),
            chains: Ghost(Seq::new(HEIGHT as nat, |i: int| Seq::<usize>::empty())),
        }
    }

    /// The slot index of a node address.
    pub fn slot(a: usize) -> (i: usize)
        requires
            a >= FIRST_ADDR,
        ensures
            i == slot_of(a),
    {
        a / 4 - 2
    }

    /// The node at `a`.
    pub fn node_ref(&self, a: usize) -> (n: &Node<K, V>)
        requires
            self.live(a),
        ensures
            *n == self.node(a),
    {
        reveal(Memory::live);
        reveal(Memory::node);
        self.nodes[Self::slot(a)].as_ref().unwrap()
    }

    /// The node at `a`, to be changed in place.
    pub fn node_mut(&mut self, a: usize) -> (n: &mut Node<K, V>)
        requires
            old(self).live(a),
        ensures
            *n == old(self).node(a),
            final(self).live(a),
            final(self).node(a) == *final(n),
            final(self).same_elsewhere(*old(self), a),
            final(self).chains == old(self).chains,
    {
        proof {
            reveal(Memory::live);
            reveal(Memory::node);
        }
        let i = Self::slot(a);
        proof {
            assert forall|b: usize| b != a && aligned(b) && b >= FIRST_ADDR implies slot_of(b)
                != slot_of(a) by {}
        }
        match &mut self.nodes[i] {
            Some(n) => n,
            None => vstd::pervasive::unreached(),
        }
    }

    /// The cell of `a` at level `l`.
    pub fn cell(&self, a: usize, l: usize) -> (c: &MaybeTagged)
        requires
            self.valid(a),
            l < self.tower(a).len(),
        ensures
            c@ == self.tower(a)[l as int],
    {
        if a == HEAD_ADDR {
            self.head.levels.index(l)
        } else {
            self.node_ref(a).levels.index(l)
        }
    }

    /// Address and tag that `a` holds at level `l`.
    pub fn load(&self, a: usize, l: usize) -> (r: (usize, usize))
        requires
            self.valid(a),
            l < self.tower(a).len(),
        ensures
            r == self.tower(a)[l as int],
            aligned(r.0),
            r.1 <= TAG_MASK,
    {
        if a == HEAD_ADDR {
            self.head.levels.index(l).load_decomposed()
        } else {
            self.node_ref(a).levels.index(l).load_decomposed()
        }
    }

    /// Compare-and-swap on the pointer of `a` at level `l`: from
    /// (`expected`, 0) to (`new`, 0).
    pub fn compare_exchange(&mut self, a: usize, l: usize, expected: usize, new: usize) -> (r:
        Result<(usize, usize), (usize, usize)>)
        requires
            old(self).valid(a),
            l < old(self).tower(a).len(),
            aligned(new),
        ensures
            r.is_ok() <==> old(self).tower(a)[l as int] == (expected, 0usize),
            r.is_ok() ==> final(self).tower(a) == old(self).tower(a).update(l as int, (new, 0usize)),
            r.is_err() ==> r == Err::<(usize, usize), (usize, usize)>(old(self).tower(a)[l as int])
                && final(self).tower(a) == old(self).tower(a),
            final(self).same_elsewhere(*old(self), a),
            final(self).chains == old(self).chains,
            a != HEAD_ADDR ==> final(self).node(a).key == old(self).node(a).key
                && final(self).node(a).val == old(self).node(a).val
                && final(self).node(a).state == old(self).node(
                a,
            ).state,
    {
        if a == HEAD_ADDR {
            let ghost before = self.head.levels@;
            assert(before.len() == self.head.levels.pointers@.len());
            let r = self.head.levels.pointers[l].compare_exchange(expected, new);
            proof {
                reveal(Memory::live);
                reveal(Memory::node);
                assert(forall|i: int|
                    0 <= i < before.len() && i != l ==> self.head.levels.pointers@[i]@
                        == #[trigger] before[i]);
                if r.is_ok() {
                    assert(self.head.levels@ =~= before.update(l as int, (new, 0usize)));
                } else {
                    assert(self.head.levels@ =~= before);
                }
            }
            r
        } else {
            let n = self.node_mut(a);
            let ghost before = n.levels@;
            assert(before.len() == n.levels.pointers@.len());
            let r = n.levels.pointers[l].compare_exchange(expected, new);
            proof {
                assert(forall|i: int|
                    0 <= i < before.len() && i != l ==> n.levels.pointers@[i]@
                        == #[trigger] before[i]);
                if r.is_ok() {
                    assert(n.levels@ =~= before.update(l as int, (new, 0usize)));
                } else {
                    assert(n.levels@ =~= before);
                }
            }
            r
        }
    }

    /// There is room for one more node: its address fits a word.
    pub open spec fn has_room(self) -> bool {
        (self.nodes@.len() + 4) * 4 <= usize::MAX
    }

    /// Whether there is room for one more node.
    pub fn room(&self) -> (r: bool)
        ensures
            r == self.has_room(),
    {
        self.nodes.len() <= usize::MAX / 4 - 4
    }

    /// Puts `node` into a fresh slot and returns its address.
    pub fn allocate(&mut self, node: Node<K, V>) -> (a: usize)
        requires
            old(self).has_room(),
        ensures
            a == addr_of(old(self).nodes@.len() as int),
            aligned(a),
            a != NULL,
            a != HEAD_ADDR,
            !old(self).live(a),
            final(self).live(a),
            final(self).node(a) == node,
            final(self).nodes@.len() == old(self).nodes@.len() + 1,
            final(self).same_nodes_but(*old(self), a),
            final(self).head == old(self).head,
            final(self).chains == old(self).chains,
    {
        proof {
            reveal(Memory::live);
            reveal(Memory::node);
        }
        let i = self.nodes.len();
        self.nodes.push(Some(node));
        (i + 2) * 4
    }

    /// Empties the slot at `a`; the node in it is dropped.
    pub fn free(&mut self, a: usize)
        requires
            old(self).live(a),
        ensures
            !final(self).live(a),
            final(self).nodes@.len() == old(self).nodes@.len(),
            final(self).same_nodes_but(*old(self), a),
            final(self).head == old(self).head,
            final(self).chains == old(self).chains,
    {
        proof {
            reveal(Memory::live);
            reveal(Memory::node);
            assert forall|b: usize| b != a && aligned(b) && b >= FIRST_ADDR implies slot_of(b)
                != slot_of(a) by {}
        }
        let i = Self::slot(a);
        self.nodes[i] = None;
    }
}

} // verus!
