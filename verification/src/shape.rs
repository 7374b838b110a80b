use vstd::prelude::*;
use crate::memory::{Memory, HEAD_ADDR};
use crate::node::HEIGHT;
use crate::order::{lemma_lt_irrefl, lemma_lt_trans, lt, total_order};
use crate::tagged::NULL;

verus! {

/// Removing position `j` from a sequence without repeats takes away the
/// element at `j` and nothing else.
pub proof fn lemma_remove_contains<A>(c: Seq<A>, j: int, a: A)
    requires
        0 <= j < c.len(),
        c.no_duplicates(),
    ensures
        c.remove(j).contains(a) <==> (c.contains(a) && a != c[j]),
{
    c.remove_ensures(j);
    let r = c.remove(j);
    if r.contains(a) {
        let i = choose|i: int| 0 <= i < r.len() && r[i] == a;
        if i < j {
            assert(c[i] == a);
        } else {
            assert(c[i + 1] == a);
        }
    }
    if c.contains(a) && a != c[j] {
        let i = choose|i: int| 0 <= i < c.len() && c[i] == a;
        if i < j {
            assert(r[i] == a);
        } else {
            assert(r[i - 1] == a);
        }
    }
}

/// Inserting `x` adds `x` and nothing else.
pub proof fn lemma_insert_contains<A>(c: Seq<A>, j: int, x: A, a: A)
    requires
        0 <= j <= c.len(),
    ensures
        c.insert(j, x).contains(a) <==> (c.contains(a) || a == x),
{
    c.insert_ensures(j, x);
    let r = c.insert(j, x);
    if r.contains(a) {
        let i = choose|i: int| 0 <= i < r.len() && r[i] == a;
        if i < j {
            assert(c[i] == a);
        } else if i > j {
            assert(r[(i - 1) + 1] == c[i - 1]);
        }
    }
    if c.contains(a) {
        let i = choose|i: int| 0 <= i < c.len() && c[i] == a;
        if i < j {
            assert(r[i] == a);
        } else {
            assert(r[i + 1] == c[i]);
        }
    }
    if a == x {
        assert(r[j] == x);
    }
}

impl<K: Ord, V> Memory<K, V> {
    /// The key of the node at `a`.
    pub open spec fn key(self, a: usize) -> K {
        self.node(a).key
    }

    /// Head and bookkeeping have their fixed sizes, and every address fits a
    /// word. The head's pointers never carry a tag.
    pub open spec fn shape(self) -> bool {
        &&& self.head.levels@.len() == HEIGHT
        &&& self.chains@.len() == HEIGHT
        &&& (self.nodes@.len() + 3) * 4 <= usize::MAX
        &&& forall|l: int| 0 <= l < HEIGHT ==> #[trigger] self.tag(HEAD_ADDR, l) == 0
    }

    /// What holds of every live node: its height is in range and its tower
    /// has that many cells; its cells carry one and the same tag, 0 or 1, and
    /// tag 1 only once the node is marked removed; only levels below its
    /// height link it. Without a tag it is linked at exactly the levels below
    /// its reference count; with one, the count is the number of levels that
    /// still link it.
    pub open spec fn node_ok(self, a: usize) -> bool {
        let n = self.node(a);
        &&& 1 <= n.spec_height() <= HEIGHT
        &&& n.levels@.len() == n.spec_height()
        &&& self.tag(a, 0) <= 1
        &&& (forall|l: int| 0 <= l < n.spec_height() ==> #[trigger] self.tag(a, l) == self.tag(a, 0))
        &&& (self.tag(a, 0) == 1 ==> n.spec_removed())
        &&& (forall|l: int| 0 <= l < HEIGHT && #[trigger] self.linked(a, l) ==> l < n.spec_height())
        &&& (self.tag(a, 0) == 0 ==> n.spec_refs() <= n.spec_height() && forall|l: int|
            0 <= l < HEIGHT ==> (#[trigger] self.linked(a, l) <==> l < n.spec_refs()))
        &&& (self.tag(a, 0) == 1 ==> n.spec_refs() == self.link_count(a, HEIGHT as int))
    }

    /// What holds of level `l`: following the pointers from the head visits
    /// the nodes of the level in order and ends in null; each of them is live
    /// and tall enough; their keys ascend strictly.
    pub open spec fn chain_ok(self, l: int) -> bool {
        let c = self.chain(l);
        &&& self.next(HEAD_ADDR, l) == self.next_at(l, 0)
        &&& (forall|j: int|
            0 <= j < c.len() ==> self.live(#[trigger] c[j]) && l < self.node(c[j]).spec_height())
        &&& (forall|j: int| 0 <= j < c.len() ==> #[trigger] self.next(c[j], l) == self.next_at(l, j + 1))
        &&& (forall|i: int, j: int|
            0 <= i < j < c.len() ==> lt(self.key(#[trigger] c[i]), self.key(#[trigger] c[j])))
    }

    /// The structural invariant of the memory.
    pub open spec fn inv(self) -> bool {
        &&& self.shape()
        &&& (forall|a: usize| #[trigger] self.live(a) ==> self.node_ok(a))
        &&& (forall|l: int| 0 <= l < HEIGHT ==> #[trigger] self.chain_ok(l))
    }

    /// The tower of the node at `a` is fully published, or not at all.
    pub open spec fn tower_complete(self, a: usize) -> bool {
        self.tag(a, 0) == 0 ==> self.node(a).spec_refs() == 0 || self.node(a).spec_refs()
            == self.node(a).spec_height()
    }

    /// Every node is fully published or not at all.
    pub open spec fn complete(self) -> bool {
        forall|a: usize| #[trigger] self.live(a) ==> self.tower_complete(a)
    }

    pub proof fn lemma_count_bounds(self, a: usize, n: int)
        requires
            0 <= n,
        ensures
            0 <= self.link_count(a, n) <= n,
        decreases n,
    {
        if n > 0 {
            self.lemma_count_bounds(a, n - 1);
        }
    }

    pub proof fn lemma_count_same(self, other: Self, a: usize, n: int)
        requires
            forall|l: int| 0 <= l < n ==> self.linked(a, l) == other.linked(a, l),
        ensures
            self.link_count(a, n) == other.link_count(a, n),
        decreases n,
    {
        if n > 0 {
            self.lemma_count_same(other, a, n - 1);
        }
    }

    pub proof fn lemma_count_drop(self, other: Self, a: usize, n: int, l: int)
        requires
            0 <= l < n,
            forall|k: int| 0 <= k < n && k != l ==> self.linked(a, k) == other.linked(a, k),
            self.linked(a, l),
            !other.linked(a, l),
        ensures
            other.link_count(a, n) == self.link_count(a, n) - 1,
        decreases n,
    {
        if n - 1 == l {
            self.lemma_count_same(other, a, n - 1);
        } else {
            self.lemma_count_drop(other, a, n - 1, l);
        }
    }

    pub proof fn lemma_count_prefix(self, a: usize, n: int, c: int)
        requires
            0 <= n,
            0 <= c,
            forall|l: int| 0 <= l < n ==> (self.linked(a, l) <==> l < c),
        ensures
            self.link_count(a, n) == if c < n {
                c
            } else {
                n
            },
        decreases n,
    {
        if n > 0 {
            self.lemma_count_prefix(a, n - 1, c);
        }
    }

    pub proof fn lemma_count_zero(self, a: usize, n: int)
        requires
            0 <= n,
            self.link_count(a, n) == 0,
        ensures
            forall|l: int| 0 <= l < n ==> !self.linked(a, l),
        decreases n,
    {
        if n > 0 {
            self.lemma_count_bounds(a, n - 1);
            self.lemma_count_zero(a, n - 1);
        }
    }

    /// A level holds no node twice.
    pub proof fn lemma_chain_distinct(self, l: int)
        requires
            total_order::<K>(),
            self.chain_ok(l),
        ensures
            self.chain(l).no_duplicates(),
    {
        let c = self.chain(l);
        assert forall|i: int, j: int| 0 <= i < c.len() && 0 <= j < c.len() && i != j implies c[i]
            != c[j] by {
            if i < j {
                lemma_lt_irrefl(self.key(c[i]), self.key(c[j]));
            } else {
                lemma_lt_irrefl(self.key(c[j]), self.key(c[i]));
            }
        }
    }

    /// The node at `a` is in `self` what it is in `old`, its pointers and
    /// its reference count left aside: live, with the same key, value,
    /// height, flag, tower size and tags.
    pub open spec fn node_same_but_refs(self, old: Self, a: usize) -> bool {
        &&& self.live(a)
        &&& self.key(a) == old.key(a)
        &&& self.node(a).val == old.node(a).val
        &&& self.node(a).spec_height() == old.node(a).spec_height()
        &&& self.node(a).spec_removed() == old.node(a).spec_removed()
        &&& self.tower(a).len() == old.tower(a).len()
        &&& (forall|k: int| 0 <= k < old.tower(a).len() ==> #[trigger] self.tag(a, k) == old.tag(a, k))
    }

    /// The node at `a` is in `self` what it is in `old`, its pointers left
    /// aside.
    pub open spec fn node_same(self, old: Self, a: usize) -> bool {
        &&& self.node_same_but_refs(old, a)
        &&& self.node(a).spec_refs() == old.node(a).spec_refs()
    }

    /// The same nodes are live in `self` and in `old`, and each but the one
    /// at `x` is the same, pointers left aside.
    pub open spec fn others_same(self, old: Self, x: usize) -> bool {
        forall|a: usize|
            #![trigger self.live(a)]
            #![trigger old.live(a)]
            a != x ==> (self.live(a) <==> old.live(a)) && (old.live(a) ==> self.node_same(old, a))
    }

    /// The head has in `self` the tower size and the tags that it has in
    /// `old`.
    pub open spec fn head_same(self, old: Self) -> bool {
        &&& self.tower(HEAD_ADDR).len() == old.tower(HEAD_ADDR).len()
        &&& (forall|k: int|
            0 <= k < old.tower(HEAD_ADDR).len() ==> #[trigger] self.tag(HEAD_ADDR, k) == old.tag(
                HEAD_ADDR,
                k,
            ))
    }

    /// `self` has the pointers of `old`, but for the one of `p` at level `l`.
    pub open spec fn same_pointers_but(self, old: Self, p: usize, l: int) -> bool {
        forall|a: usize, k: int|
            old.valid(a) && 0 <= k < old.tower(a).len() && !(a == p && k == l) ==> #[trigger] self.next(
                a,
                k,
            ) == old.next(a, k)
    }

    /// `self` has the pointers of `old`.
    pub open spec fn same_pointers(self, old: Self) -> bool {
        forall|a: usize, k: int|
            old.valid(a) && 0 <= k < old.tower(a).len() ==> #[trigger] self.next(a, k) == old.next(
                a,
                k,
            )
    }

    /// `self` has the levels of `old`, but for level `l`.
    pub open spec fn same_chains_but(self, old: Self, l: int) -> bool {
        &&& self.chains@.len() == old.chains@.len()
        &&& (forall|k: int| 0 <= k < HEIGHT && k != l ==> #[trigger] self.chain(k) == old.chain(k))
    }

    /// Level `k` has in `self` the order, the nodes and the pointers that it
    /// has in `old`.
    pub open spec fn level_kept(self, old: Self, k: int) -> bool {
        &&& self.chain(k) == old.chain(k)
        &&& self.next(HEAD_ADDR, k) == old.next(HEAD_ADDR, k)
        &&& (forall|i: int|
            0 <= i < old.chain(k).len() ==> self.live(#[trigger] old.chain(k)[i]) && self.key(
                old.chain(k)[i],
            ) == old.key(old.chain(k)[i]) && self.node(old.chain(k)[i]).spec_height() == old.node(
                old.chain(k)[i],
            ).spec_height() && self.next(old.chain(k)[i], k) == old.next(old.chain(k)[i], k))
    }

    /// A level that kept its order, its nodes and their pointers is still in
    /// order.
    pub proof fn lemma_level_kept(self, new: Self, k: int)
        requires
            self.chain_ok(k),
            new.level_kept(self, k),
        ensures
            new.chain_ok(k),
    {
        let d = new.chain(k);
        assert forall|i: int| 0 <= i < d.len() implies #[trigger] new.next(d[i], k) == new.next_at(
            k,
            i + 1,
        ) by {
            assert(new.live(self.chain(k)[i]));
            assert(self.next(d[i], k) == self.next_at(k, i + 1));
        }
        assert forall|i: int, m: int| 0 <= i < m < d.len() implies lt(
            new.key(#[trigger] d[i]),
            new.key(#[trigger] d[m]),
        ) by {
            assert(new.live(self.chain(k)[i]) && new.live(self.chain(k)[m]));
        }
    }

    /// What keeps nodes and pointers keeps every level whose order it keeps.
    pub proof fn lemma_level_kept_intro(self, new: Self, k: int, x: usize, p: usize, l: int)
        requires
            self.inv(),
            0 <= k < HEIGHT,
            new.chain(k) == self.chain(k),
            new.others_same(self, x),
            new.same_pointers_but(self, p, l),
            x != HEAD_ADDR,
            self.live(x) ==> new.live(x) && new.key(x) == self.key(x) && new.node(x).spec_height()
                == self.node(x).spec_height(),
            k != l || (p != HEAD_ADDR && !self.linked(p, k)),
        ensures
            new.level_kept(self, k),
    {
        self.lemma_live_addrs();
        assert(self.chain_ok(k));
        assert(self.valid(HEAD_ADDR));
        assert forall|i: int| 0 <= i < self.chain(k).len() implies new.live(
            #[trigger] self.chain(k)[i],
        ) && new.key(self.chain(k)[i]) == self.key(self.chain(k)[i]) && new.node(
            self.chain(k)[i],
        ).spec_height() == self.node(self.chain(k)[i]).spec_height() && new.next(
            self.chain(k)[i],
            k,
        ) == self.next(self.chain(k)[i], k) by {
            let b = self.chain(k)[i];
            assert(self.live(b));
            assert(self.node_ok(b));
            assert(self.valid(b));
            if b != x {
                assert(new.node_same(self, b));
            }
            assert(self.linked(b, k));
        }
    }

    /// A node that is what it was and is linked where it was is still in
    /// order.
    pub proof fn lemma_node_kept(self, new: Self, a: usize)
        requires
            self.live(a),
            self.node_ok(a),
            new.node_same(self, a),
            forall|k: int| 0 <= k < HEIGHT ==> new.linked(a, k) == self.linked(a, k),
        ensures
            new.node_ok(a),
    {
        self.lemma_live_addr(a);
        assert forall|k: int| 0 <= k < new.node(a).spec_height() implies #[trigger] new.tag(a, k)
            == new.tag(a, 0) by {
            assert(new.tag(a, k) == self.tag(a, k));
            assert(new.tag(a, 0) == self.tag(a, 0));
        }
        assert(new.tag(a, 0) == self.tag(a, 0));
        if new.tag(a, 0) == 1 {
            self.lemma_count_same(new, a, HEIGHT as int);
        }
    }

    /// `new` is `self` after the node at position `j` of level `l` has been
    /// unlinked from that level.
    pub open spec fn spliced_out(self, new: Self, l: int, j: int) -> bool {
        let x = self.chain(l)[j];
        let p = self.pred_at(l, j);
        &&& new.nodes@.len() == self.nodes@.len()
        &&& new.head_same(self)
        &&& new.others_same(self, x)
        &&& new.node_same_but_refs(self, x)
        &&& new.node(x).spec_refs() == self.node(x).spec_refs() - 1
        &&& new.same_chains_but(self, l)
        &&& new.chain(l) == self.chain(l).remove(j)
        &&& new.same_pointers_but(self, p, l)
        &&& new.next(p, l) == self.next(x, l)
    }

    proof fn lemma_spliced_out_live(self, new: Self, l: int, j: int)
        requires
            self.chain_ok(l),
            0 <= l < HEIGHT,
            0 <= j < self.chain(l).len(),
            self.spliced_out(new, l, j),
        ensures
            forall|i: int|
                0 <= i < new.chain(l).len() ==> new.live(#[trigger] new.chain(l)[i]) && l
                    < new.node(new.chain(l)[i]).spec_height(),
    {
        let c = self.chain(l);
        let d = new.chain(l);
        c.remove_ensures(j);
        assert forall|i: int| 0 <= i < d.len() implies new.live(#[trigger] d[i]) && l < new.node(
            d[i],
        ).spec_height() by {
            let i0 = if i < j {
                i
            } else {
                i + 1
            };
            assert(d[i] == c[i0]);
            assert(self.live(c[i0]));
            assert(new.node_same_but_refs(self, c[i0]));
        }
    }

    proof fn lemma_spliced_out_next(self, new: Self, l: int, j: int, i: int)
        requires
            total_order::<K>(),
            self.inv(),
            0 <= l < HEIGHT,
            0 <= j < self.chain(l).len(),
            self.spliced_out(new, l, j),
            0 <= i < new.chain(l).len(),
        ensures
            new.next(new.chain(l)[i], l) == new.next_at(l, i + 1),
    {
        let c = self.chain(l);
        let x = c[j];
        let p = self.pred_at(l, j);
        let d = new.chain(l);
        assert(self.chain_ok(l));
        self.lemma_chain_distinct(l);
        c.remove_ensures(j);
        assert(self.live(x));
        let i0 = if i < j {
            i
        } else {
            i + 1
        };
        assert(d[i] == c[i0]);
        assert(self.live(c[i0]));
        assert(self.valid(c[i0]));
        self.lemma_live_addr(c[i0]);
        assert(self.node_ok(c[i0]));
        assert(l < self.tower(c[i0]).len());
        if i == j - 1 {
            assert(c[i0] == p);
            assert(self.next(x, l) == self.next_at(l, j + 1));
        } else {
            assert(c[i0] != p);
            assert(new.next(c[i0], l) == self.next(c[i0], l));
            assert(self.next(c[i0], l) == self.next_at(l, i0 + 1));
        }
    }

    proof fn lemma_spliced_out_sorted(self, new: Self, l: int, j: int, i: int, m: int)
        requires
            self.chain_ok(l),
            0 <= l < HEIGHT,
            0 <= j < self.chain(l).len(),
            self.spliced_out(new, l, j),
            0 <= i < m < new.chain(l).len(),
        ensures
            lt(new.key(new.chain(l)[i]), new.key(new.chain(l)[m])),
    {
        let c = self.chain(l);
        let d = new.chain(l);
        c.remove_ensures(j);
        let i0 = if i < j {
            i
        } else {
            i + 1
        };
        let m0 = if m < j {
            m
        } else {
            m + 1
        };
        assert(d[i] == c[i0] && d[m] == c[m0]);
        assert(self.live(c[i0]) && self.live(c[m0]));
        assert(new.node_same_but_refs(self, c[i0]) && new.node_same_but_refs(self, c[m0]));
        assert(lt(self.key(c[i0]), self.key(c[m0])));
    }

    proof fn lemma_spliced_out_level(self, new: Self, l: int, j: int)
        requires
            total_order::<K>(),
            self.inv(),
            0 <= l < HEIGHT,
            0 <= j < self.chain(l).len(),
            self.spliced_out(new, l, j),
        ensures
            new.chain_ok(l),
    {
        let c = self.chain(l);
        let x = c[j];
        let d = new.chain(l);
        assert(self.chain_ok(l));
        c.remove_ensures(j);
        assert(self.live(x));
        self.lemma_spliced_out_live(new, l, j);
        assert forall|i: int| 0 <= i < d.len() implies #[trigger] new.next(d[i], l) == new.next_at(
            l,
            i + 1,
        ) by {
            self.lemma_spliced_out_next(new, l, j, i);
        }
        assert forall|i: int, m: int| 0 <= i < m < d.len() implies lt(
            new.key(#[trigger] d[i]),
            new.key(#[trigger] d[m]),
        ) by {
            self.lemma_spliced_out_sorted(new, l, j, i, m);
        }
        assert(self.valid(HEAD_ADDR));
        if j == 0 {
            assert(new.next(HEAD_ADDR, l) == self.next(x, l));
            self.lemma_live_addr(x);
            assert(self.node_ok(x));
            assert(self.next(x, l) == self.next_at(l, 1));
        } else {
            assert(self.live(c[j - 1]));
            self.lemma_live_addr(c[j - 1]);
            assert(new.next(HEAD_ADDR, l) == self.next(HEAD_ADDR, l));
        }
    }

    proof fn lemma_spliced_out_linked(self, new: Self, l: int, j: int, a: usize, k: int)
        requires
            total_order::<K>(),
            self.chain_ok(l),
            0 <= l < HEIGHT,
            0 <= k < HEIGHT,
            0 <= j < self.chain(l).len(),
            new.same_chains_but(self, l),
            new.chain(l) == self.chain(l).remove(j),
        ensures
            new.linked(a, k) <==> self.linked(a, k) && !(a == self.chain(l)[j] && k == l),
    {
        if k == l {
            self.lemma_chain_distinct(l);
            lemma_remove_contains(self.chain(l), j, a);
        } else {
            assert(new.chain(k) == self.chain(k));
        }
    }

    proof fn lemma_spliced_out_node(self, new: Self, l: int, j: int)
        requires
            total_order::<K>(),
            self.inv(),
            0 <= l < HEIGHT,
            0 <= j < self.chain(l).len(),
            self.tag(self.chain(l)[j], 0) == 1,
            self.spliced_out(new, l, j),
        ensures
            new.node_ok(self.chain(l)[j]),
    {
        let x = self.chain(l)[j];
        assert(self.chain_ok(l));
        assert(self.live(x));
        assert(self.node_ok(x));
        self.lemma_live_addr(x);
        assert forall|k: int| 0 <= k < new.node(x).spec_height() implies #[trigger] new.tag(x, k)
            == new.tag(x, 0) by {
            assert(new.tag(x, k) == self.tag(x, k));
            assert(new.tag(x, 0) == self.tag(x, 0));
        }
        assert(new.tag(x, 0) == self.tag(x, 0));
        assert forall|k: int| 0 <= k < HEIGHT implies (new.linked(x, k) <==> self.linked(x, k)
            && k != l) by {
            self.lemma_spliced_out_linked(new, l, j, x, k);
        }
        assert(self.linked(x, l));
        self.lemma_count_drop(new, x, HEIGHT as int, l);
    }

    /// Unlinking a tagged node from one level keeps the invariant: the
    /// predecessor's pointer goes on to the node's successor, the node leaves
    /// the level and loses one reference.
    pub proof fn lemma_splice_out(self, new: Self, l: int, j: int)
        requires
            total_order::<K>(),
            self.inv(),
            0 <= l < HEIGHT,
            0 <= j < self.chain(l).len(),
            self.tag(self.chain(l)[j], 0) == 1,
            self.spliced_out(new, l, j),
        ensures
            new.inv(),
    {
        let c = self.chain(l);
        let x = c[j];
        let p = self.pred_at(l, j);
        assert(self.chain_ok(l));
        assert(self.live(x));
        self.lemma_live_addr(x);
        assert(new.shape());
        assert forall|k: int| 0 <= k < HEIGHT implies #[trigger] new.chain_ok(k) by {
            assert(self.chain_ok(k));
            if k == l {
                self.lemma_spliced_out_level(new, l, j);
            } else {
                self.lemma_level_kept_intro(new, k, x, p, l);
                self.lemma_level_kept(new, k);
            }
        }
        assert forall|a: usize| #[trigger] new.live(a) implies new.node_ok(a) by {
            assert(self.live(a));
            assert(self.node_ok(a));
            if a == x {
                self.lemma_spliced_out_node(new, l, j);
            } else {
                assert forall|k: int| 0 <= k < HEIGHT implies new.linked(a, k) == self.linked(
                    a,
                    k,
                ) by {
                    self.lemma_spliced_out_linked(new, l, j, a, k);
                }
                self.lemma_node_kept(new, a);
            }
        }
    }

    /// `new` is `self` after the node at `x` has been linked into level `l`
    /// at position `j`.
    pub open spec fn spliced_in(self, new: Self, l: int, j: int, x: usize) -> bool {
        let p = self.pred_at(l, j);
        &&& new.nodes@.len() == self.nodes@.len()
        &&& new.head_same(self)
        &&& new.others_same(self, x)
        &&& new.node_same_but_refs(self, x)
        &&& new.node(x).spec_refs() == self.node(x).spec_refs() + 1
        &&& new.same_chains_but(self, l)
        &&& new.chain(l) == self.chain(l).insert(j, x)
        &&& new.same_pointers_but(self, p, l)
        &&& new.next(p, l) == x
    }

    /// What linking the node at `x` into level `l` at position `j` asks for:
    /// the node is live, carries no tag, is linked at the levels below `l`
    /// and no other, is taller than `l` and points at level `l` to the node
    /// at `j`; its key lies strictly between those of its neighbours.
    pub open spec fn fits(self, l: int, j: int, x: usize) -> bool {
        &&& 0 <= l < HEIGHT
        &&& 0 <= j <= self.chain(l).len()
        &&& self.live(x)
        &&& self.tag(x, 0) == 0
        &&& self.node(x).spec_refs() == l
        &&& l < self.node(x).spec_height()
        &&& self.next(x, l) == self.next_at(l, j)
        &&& (j > 0 ==> lt(self.key(self.chain(l)[j - 1]), self.key(x)))
        &&& (j < self.chain(l).len() ==> lt(self.key(x), self.key(self.chain(l)[j])))
    }

    proof fn lemma_spliced_in_live(self, new: Self, l: int, j: int, x: usize)
        requires
            self.chain_ok(l),
            self.fits(l, j, x),
            self.spliced_in(new, l, j, x),
        ensures
            forall|i: int|
                0 <= i < new.chain(l).len() ==> new.live(#[trigger] new.chain(l)[i]) && l
                    < new.node(new.chain(l)[i]).spec_height(),
    {
        let c = self.chain(l);
        let d = new.chain(l);
        c.insert_ensures(j, x);
        assert forall|i: int| 0 <= i < d.len() implies new.live(#[trigger] d[i]) && l < new.node(
            d[i],
        ).spec_height() by {
            if i < j {
                assert(d[i] == c[i]);
                assert(self.live(c[i]));
            } else if i > j {
                assert(d[(i - 1) + 1] == c[i - 1]);
                assert(self.live(c[i - 1]));
            }
        }
    }

    proof fn lemma_spliced_in_next(self, new: Self, l: int, j: int, x: usize, i: int)
        requires
            total_order::<K>(),
            self.inv(),
            self.fits(l, j, x),
            self.spliced_in(new, l, j, x),
            0 <= i < new.chain(l).len(),
        ensures
            new.next(new.chain(l)[i], l) == new.next_at(l, i + 1),
    {
        let c = self.chain(l);
        let p = self.pred_at(l, j);
        let d = new.chain(l);
        assert(self.chain_ok(l));
        self.lemma_chain_distinct(l);
        self.lemma_live_addrs();
        c.insert_ensures(j, x);
        assert(self.node_ok(x));
        assert(!self.linked(x, l));
        assert(j < c.len() ==> d[j + 1] == c[j]);
        if i < j {
            assert(d[i] == c[i]);
            assert(self.live(c[i]));
            assert(self.node_ok(c[i]));
            assert(self.valid(c[i]));
            if i == j - 1 {
                assert(c[i] == p);
            } else {
                assert(c[i] != p);
                assert(new.next(c[i], l) == self.next(c[i], l));
                assert(self.next(c[i], l) == self.next_at(l, i + 1));
                assert(d[i + 1] == c[i + 1]);
            }
        } else if i == j {
            assert(d[i] == x);
            assert(self.valid(x));
            assert(x != p) by {
                if j > 0 {
                    assert(self.linked(c[j - 1], l));
                }
            }
            assert(new.next(x, l) == self.next(x, l));
        } else {
            assert(d[(i - 1) + 1] == c[i - 1]);
            let b = c[i - 1];
            assert(self.live(b));
            assert(self.node_ok(b));
            assert(self.valid(b));
            assert(b != p);
            assert(new.next(b, l) == self.next(b, l));
            assert(self.next(b, l) == self.next_at(l, i));
            if i < c.len() {
                assert(d[i + 1] == c[i]);
            }
        }
    }

    proof fn lemma_spliced_in_sorted(self, new: Self, l: int, j: int, x: usize, i: int, m: int)
        requires
            total_order::<K>(),
            self.inv(),
            self.fits(l, j, x),
            self.spliced_in(new, l, j, x),
            0 <= i < m < new.chain(l).len(),
        ensures
            lt(new.key(new.chain(l)[i]), new.key(new.chain(l)[m])),
    {
        let c = self.chain(l);
        let d = new.chain(l);
        assert(self.chain_ok(l));
        assert(self.node_ok(x));
        assert(!self.linked(x, l));
        c.insert_ensures(j, x);
        assert(new.key(x) == self.key(x));
        if i != j {
            let i0 = if i < j {
                i
            } else {
                i - 1
            };
            assert(d[i] == c[i0]) by {
                if i > j {
                    assert(d[(i - 1) + 1] == c[i - 1]);
                }
            }
            assert(self.live(c[i0]));
            assert(new.node_same(self, c[i0])) by {
                assert(self.linked(c[i0], l));
            }
        }
        if m != j {
            let m0 = if m < j {
                m
            } else {
                m - 1
            };
            assert(d[m] == c[m0]) by {
                if m > j {
                    assert(d[(m - 1) + 1] == c[m - 1]);
                }
            }
            assert(self.live(c[m0]));
            assert(new.node_same(self, c[m0])) by {
                assert(self.linked(c[m0], l));
            }
        }
        if i == j {
            if m - 1 > j {
                lemma_lt_trans(self.key(x), self.key(c[j]), self.key(c[m - 1]));
            }
        } else if m == j {
            if i < j - 1 {
                lemma_lt_trans(self.key(c[i]), self.key(c[j - 1]), self.key(x));
            }
        }
    }

    proof fn lemma_spliced_in_level(self, new: Self, l: int, j: int, x: usize)
        requires
            total_order::<K>(),
            self.inv(),
            self.fits(l, j, x),
            self.spliced_in(new, l, j, x),
        ensures
            new.chain_ok(l),
    {
        let c = self.chain(l);
        let d = new.chain(l);
        assert(self.chain_ok(l));
        c.insert_ensures(j, x);
        assert(self.node_ok(x));
        assert(!self.linked(x, l));
        self.lemma_spliced_in_live(new, l, j, x);
        assert forall|i: int| 0 <= i < d.len() implies #[trigger] new.next(d[i], l) == new.next_at(
            l,
            i + 1,
        ) by {
            self.lemma_spliced_in_next(new, l, j, x, i);
        }
        assert forall|i: int, m: int| 0 <= i < m < d.len() implies lt(
            new.key(#[trigger] d[i]),
            new.key(#[trigger] d[m]),
        ) by {
            self.lemma_spliced_in_sorted(new, l, j, x, i, m);
        }
        assert(self.valid(HEAD_ADDR));
        if j == 0 {
            assert(d[0] == x);
        } else {
            assert(self.live(c[j - 1]));
            self.lemma_live_addr(c[j - 1]);
            assert(d[0] == c[0]);
            assert(new.next(HEAD_ADDR, l) == self.next(HEAD_ADDR, l));
        }
    }

    proof fn lemma_spliced_in_linked(self, new: Self, l: int, j: int, x: usize, a: usize, k: int)
        requires
            0 <= l < HEIGHT,
            0 <= k < HEIGHT,
            0 <= j <= self.chain(l).len(),
            new.same_chains_but(self, l),
            new.chain(l) == self.chain(l).insert(j, x),
        ensures
            new.linked(a, k) <==> self.linked(a, k) || (a == x && k == l),
    {
        if k == l {
            lemma_insert_contains(self.chain(l), j, x, a);
        } else {
            assert(new.chain(k) == self.chain(k));
        }
    }

    /// Linking an untagged node into the level just above those that link
    /// it keeps the invariant.
    pub proof fn lemma_splice_in(self, new: Self, l: int, j: int, x: usize)
        requires
            total_order::<K>(),
            self.inv(),
            self.fits(l, j, x),
            self.spliced_in(new, l, j, x),
        ensures
            new.inv(),
    {
        let c = self.chain(l);
        let p = self.pred_at(l, j);
        assert(self.chain_ok(l));
        self.lemma_live_addr(x);
        assert(self.node_ok(x));
        assert(new.shape());
        assert forall|k: int| 0 <= k < HEIGHT implies #[trigger] new.chain_ok(k) by {
            assert(self.chain_ok(k));
            if k == l {
                self.lemma_spliced_in_level(new, l, j, x);
            } else {
                self.lemma_level_kept_intro(new, k, x, p, l);
                self.lemma_level_kept(new, k);
            }
        }
        assert forall|a: usize| #[trigger] new.live(a) implies new.node_ok(a) by {
            assert(self.live(a));
            assert(self.node_ok(a));
            assert forall|k: int| 0 <= k < HEIGHT implies (new.linked(a, k) <==> self.linked(a, k)
                || (a == x && k == l)) by {
                self.lemma_spliced_in_linked(new, l, j, x, a, k);
            }
            if a == x {
                assert forall|k: int| 0 <= k < new.node(x).spec_height() implies #[trigger] new.tag(
                    x,
                    k,
                ) == new.tag(x, 0) by {
                    assert(new.tag(x, k) == self.tag(x, k));
                    assert(new.tag(x, 0) == self.tag(x, 0));
                }
                assert(new.tag(x, 0) == self.tag(x, 0));
            } else {
                self.lemma_node_kept(new, a);
            }
        }
    }

    /// `new` is `self` but for the marks of the node at `x`: its removed
    /// flag and its tags, which are now `tag` on every level.
    pub open spec fn relabelled(self, new: Self, x: usize, tag: usize) -> bool {
        &&& new.nodes@.len() == self.nodes@.len()
        &&& new.head_same(self)
        &&& new.others_same(self, x)
        &&& new.same_pointers(self)
        &&& new.chains@ == self.chains@
        &&& new.live(x)
        &&& new.key(x) == self.key(x)
        &&& new.node(x).val == self.node(x).val
        &&& new.node(x).spec_height() == self.node(x).spec_height()
        &&& new.node(x).spec_refs() == self.node(x).spec_refs()
        &&& new.tower(x).len() == self.tower(x).len()
        &&& (forall|k: int| 0 <= k < self.tower(x).len() ==> #[trigger] new.tag(x, k) == tag)
    }

    /// Setting or clearing the mark of an untagged node, tagging its levels
    /// once it is marked, or both, keeps the invariant.
    pub proof fn lemma_relabel(self, new: Self, x: usize, tag: usize)
        requires
            self.inv(),
            self.live(x),
            self.tag(x, 0) == 0,
            tag <= 1,
            tag == 1 ==> new.node(x).spec_removed(),
            self.relabelled(new, x, tag),
        ensures
            new.inv(),
    {
        self.lemma_live_addrs();
        assert(self.node_ok(x));
        assert(new.shape());
        assert forall|k: int| 0 <= k < HEIGHT implies #[trigger] new.chain_ok(k) by {
            assert(self.chain_ok(k));
            assert(self.valid(HEAD_ADDR));
            assert forall|i: int| 0 <= i < self.chain(k).len() implies new.live(
                #[trigger] self.chain(k)[i],
            ) && new.key(self.chain(k)[i]) == self.key(self.chain(k)[i]) && new.node(
                self.chain(k)[i],
            ).spec_height() == self.node(self.chain(k)[i]).spec_height() && new.next(
                self.chain(k)[i],
                k,
            ) == self.next(self.chain(k)[i], k) by {
                let b = self.chain(k)[i];
                assert(self.live(b));
                assert(self.node_ok(b));
                assert(self.valid(b));
                if b != x {
                    assert(new.node_same(self, b));
                }
            }
            self.lemma_level_kept(new, k);
        }
        assert forall|a: usize| #[trigger] new.live(a) implies new.node_ok(a) by {
            assert(self.live(a));
            assert(self.node_ok(a));
            assert forall|k: int| 0 <= k < HEIGHT implies new.linked(a, k) == self.linked(a, k) by {
                assert(new.chain(k) == self.chain(k));
            }
            if a == x {
                assert(new.tag(x, 0) == tag);
                if tag == 1 {
                    self.lemma_count_prefix(x, HEIGHT as int, self.node(x).spec_refs() as int);
                    self.lemma_count_same(new, x, HEIGHT as int);
                }
            } else {
                self.lemma_node_kept(new, a);
            }
        }
    }

    /// `new` is `self` with one more node, at `x`.
    pub open spec fn grown(self, new: Self, x: usize) -> bool {
        &&& new.nodes@.len() == self.nodes@.len() + 1
        &&& new.head == self.head
        &&& new.chains@ == self.chains@
        &&& new.same_nodes_but(self, x)
        &&& !self.live(x)
        &&& new.live(x)
    }

    /// A fresh node, linked nowhere, keeps the invariant.
    pub proof fn lemma_grow(self, new: Self, x: usize)
        requires
            self.inv(),
            self.has_room(),
            self.grown(new, x),
            x != HEAD_ADDR,
            1 <= new.node(x).spec_height() <= HEIGHT,
            new.node(x).spec_refs() == 0,
            new.node(x).levels@ == Seq::new(
                new.node(x).spec_height() as nat,
                |i: int| (NULL, 0usize),
            ),
        ensures
            new.inv(),
    {
        self.lemma_live_addrs();
        new.lemma_live_addrs();
        assert forall|k: int| 0 <= k < HEIGHT implies #[trigger] new.tag(HEAD_ADDR, k) == 0 by {
            assert(self.tag(HEAD_ADDR, k) == 0);
        }
        assert(new.shape());
        assert forall|a: usize, k: int| 0 <= k < HEIGHT implies (#[trigger] new.linked(a, k)
            <==> self.linked(a, k)) by {
            assert(new.chain(k) == self.chain(k));
        }
        assert forall|k: int| 0 <= k < HEIGHT implies !self.linked(x, k) by {
            assert(self.chain_ok(k));
            if self.linked(x, k) {
                let i = choose|i: int| 0 <= i < self.chain(k).len() && self.chain(k)[i] == x;
                assert(self.live(self.chain(k)[i]));
            }
        }
        assert forall|k: int| 0 <= k < HEIGHT implies #[trigger] new.chain_ok(k) by {
            assert(self.chain_ok(k));
            assert forall|i: int| 0 <= i < self.chain(k).len() implies new.live(
                #[trigger] self.chain(k)[i],
            ) && new.key(self.chain(k)[i]) == self.key(self.chain(k)[i]) && new.node(
                self.chain(k)[i],
            ).spec_height() == self.node(self.chain(k)[i]).spec_height() && new.next(
                self.chain(k)[i],
                k,
            ) == self.next(self.chain(k)[i], k) by {
                let b = self.chain(k)[i];
                assert(self.live(b));
                assert(new.node(b) == self.node(b));
            }
            self.lemma_level_kept(new, k);
        }
        assert forall|a: usize| #[trigger] new.live(a) implies new.node_ok(a) by {
            if a == x {
                assert(new.tower(x) == new.node(x).levels@);
                assert(new.tag(x, 0) == 0);
                assert forall|k: int| 0 <= k < new.node(x).spec_height() implies #[trigger] new.tag(
                    x,
                    k,
                ) == new.tag(x, 0) by {}
                assert forall|k: int| 0 <= k < HEIGHT implies !(#[trigger] new.linked(x, k)) by {
                    assert(!self.linked(x, k));
                }
            } else {
                assert(self.live(a));
                assert(self.node_ok(a));
                assert(new.node(a) == self.node(a));
                assert(new.tower(a) == self.tower(a));
                assert(new.node_same(self, a));
                self.lemma_node_kept(new, a);
            }
        }
    }

    /// `new` is `self` without the node at `x`.
    pub open spec fn shrunk(self, new: Self, x: usize) -> bool {
        &&& new.nodes@.len() == self.nodes@.len()
        &&& new.head == self.head
        &&& new.chains@ == self.chains@
        &&& new.same_nodes_but(self, x)
        &&& !new.live(x)
    }

    /// Freeing a node that no level links keeps the invariant.
    pub proof fn lemma_shrink(self, new: Self, x: usize)
        requires
            self.inv(),
            self.live(x),
            self.node(x).spec_refs() == 0,
            self.shrunk(new, x),
        ensures
            new.inv(),
    {
        self.lemma_live_addrs();
        new.lemma_live_addrs();
        assert forall|k: int| 0 <= k < HEIGHT implies #[trigger] new.tag(HEAD_ADDR, k) == 0 by {
            assert(self.tag(HEAD_ADDR, k) == 0);
        }
        assert(new.shape());
        assert(self.node_ok(x));
        if self.tag(x, 0) == 1 {
            self.lemma_count_zero(x, HEIGHT as int);
        }
        assert forall|a: usize, k: int| 0 <= k < HEIGHT implies (#[trigger] new.linked(a, k)
            <==> self.linked(a, k)) by {
            assert(new.chain(k) == self.chain(k));
        }
        assert forall|k: int| 0 <= k < HEIGHT implies #[trigger] new.chain_ok(k) by {
            assert(self.chain_ok(k));
            assert(!self.linked(x, k));
            assert forall|i: int| 0 <= i < self.chain(k).len() implies new.live(
                #[trigger] self.chain(k)[i],
            ) && new.key(self.chain(k)[i]) == self.key(self.chain(k)[i]) && new.node(
                self.chain(k)[i],
            ).spec_height() == self.node(self.chain(k)[i]).spec_height() && new.next(
                self.chain(k)[i],
                k,
            ) == self.next(self.chain(k)[i], k) by {
                let b = self.chain(k)[i];
                assert(self.live(b));
                assert(self.linked(b, k));
                assert(new.node(b) == self.node(b));
            }
            self.lemma_level_kept(new, k);
        }
        assert forall|a: usize| #[trigger] new.live(a) implies new.node_ok(a) by {
            assert(self.live(a));
            assert(self.node_ok(a));
            assert(new.node(a) == self.node(a));
            assert(new.tower(a) == self.tower(a));
            assert(new.node_same(self, a));
            self.lemma_node_kept(new, a);
        }
    }

    /// `self` is `old` in all but the representation: the same nodes with
    /// the same contents, marks, counts and pointers, the same levels.
    pub open spec fn unchanged(self, old: Self) -> bool {
        &&& self.nodes@.len() == old.nodes@.len()
        &&& self.head_same(old)
        &&& self.others_same(old, NULL)
        &&& self.same_pointers(old)
        &&& self.chains@ == old.chains@
    }

    /// A pointer that was swapped and a count that was lowered amount to an
    /// unlinking, once the level's order leaves the node out.
    pub proof fn lemma_spliced_out_intro(self, mid: Self, new: Self, l: int, j: int)
        requires
            total_order::<K>(),
            self.inv(),
            0 <= l < HEIGHT,
            0 <= j < self.chain(l).len(),
            self.tag(self.pred_at(l, j), l) == 0,
            mid.same_elsewhere(self, self.pred_at(l, j)),
            mid.tower(self.pred_at(l, j)) == self.tower(self.pred_at(l, j)).update(
                l,
                (self.next(self.chain(l)[j], l), 0usize),
            ),
            self.pred_at(l, j) != HEAD_ADDR ==> mid.node(self.pred_at(l, j)).key == self.node(
                self.pred_at(l, j),
            ).key && mid.node(self.pred_at(l, j)).val == self.node(self.pred_at(l, j)).val
                && mid.node(self.pred_at(l, j)).state == self.node(self.pred_at(l, j)).state,
            new.same_elsewhere(mid, self.chain(l)[j]),
            new.node(self.chain(l)[j]).key == mid.node(self.chain(l)[j]).key,
            new.node(self.chain(l)[j]).val == mid.node(self.chain(l)[j]).val,
            new.node(self.chain(l)[j]).levels == mid.node(self.chain(l)[j]).levels,
            new.node(self.chain(l)[j]).spec_height() == mid.node(self.chain(l)[j]).spec_height(),
            new.node(self.chain(l)[j]).spec_removed() == mid.node(self.chain(l)[j]).spec_removed(),
            new.node(self.chain(l)[j]).spec_refs() == mid.node(self.chain(l)[j]).spec_refs() - 1,
            new.chains@ == self.chains@.update(l, self.chain(l).remove(j)),
        ensures
            self.spliced_out(new, l, j),
    {
        let x = self.chain(l)[j];
        let p = self.pred_at(l, j);
        self.lemma_live_addrs();
        mid.lemma_live_addrs();
        new.lemma_live_addrs();
        assert(self.chain_ok(l));
        self.lemma_chain_distinct(l);
        assert(self.live(x));
        assert(p != x);
        assert(self.valid(p));
        assert(mid.node(x) == self.node(x));
        assert(new.tower(x) == self.tower(x));
        assert(p != HEAD_ADDR ==> new.node(p) == mid.node(p));
        assert(new.tower(p) == mid.tower(p));
        assert(p != HEAD_ADDR ==> self.live(p) && self.node_ok(p));
        assert(l < self.tower(p).len());
        assert forall|a: usize| a != x implies (#[trigger] new.live(a) <==> self.live(a)) && (
        self.live(a) ==> new.node_same(self, a)) by {
            if self.live(a) {
                if a == p {
                    assert forall|k: int| 0 <= k < self.tower(a).len() implies #[trigger] new.tag(
                        a,
                        k,
                    ) == self.tag(a, k) by {}
                } else {
                    assert(mid.node(a) == self.node(a));
                    assert(new.node(a) == mid.node(a));
                }
            }
        }
        assert(new.head_same(self)) by {
            assert forall|k: int| 0 <= k < self.tower(HEAD_ADDR).len() implies #[trigger] new.tag(
                HEAD_ADDR,
                k,
            ) == self.tag(HEAD_ADDR, k) by {}
        }
        assert forall|a: usize, k: int|
            self.valid(a) && 0 <= k < self.tower(a).len() && !(a == p && k == l) implies #[trigger] new.next(
            a,
            k,
        ) == self.next(a, k) by {
            if a == p {
            } else if a == x {
            } else if a == HEAD_ADDR {
            } else {
                assert(mid.node(a) == self.node(a));
                assert(new.node(a) == mid.node(a));
            }
        }
        assert(new.same_chains_but(self, l));
        assert(new.chain(l) == self.chain(l).remove(j));
    }

    /// A count that was raised and a pointer that was swapped amount to a
    /// linking, once the level's order takes the node in.
    pub proof fn lemma_spliced_in_intro(self, mid: Self, new: Self, l: int, j: int, x: usize)
        requires
            total_order::<K>(),
            self.inv(),
            self.fits(l, j, x),
            self.tag(self.pred_at(l, j), l) == 0,
            mid.same_elsewhere(self, x),
            mid.node(x).key == self.node(x).key,
            mid.node(x).val == self.node(x).val,
            mid.node(x).levels == self.node(x).levels,
            mid.node(x).spec_height() == self.node(x).spec_height(),
            mid.node(x).spec_removed() == self.node(x).spec_removed(),
            mid.node(x).spec_refs() == self.node(x).spec_refs() + 1,
            new.same_elsewhere(mid, self.pred_at(l, j)),
            new.tower(self.pred_at(l, j)) == mid.tower(self.pred_at(l, j)).update(l, (x, 0usize)),
            self.pred_at(l, j) != HEAD_ADDR ==> new.node(self.pred_at(l, j)).key == mid.node(
                self.pred_at(l, j),
            ).key && new.node(self.pred_at(l, j)).val == mid.node(self.pred_at(l, j)).val
                && new.node(self.pred_at(l, j)).state == mid.node(self.pred_at(l, j)).state,
            new.chains@ == self.chains@.update(l, self.chain(l).insert(j, x)),
        ensures
            self.spliced_in(new, l, j, x),
    {
        let p = self.pred_at(l, j);
        self.lemma_live_addrs();
        mid.lemma_live_addrs();
        new.lemma_live_addrs();
        assert(self.chain_ok(l));
        assert(self.node_ok(x));
        assert(!self.linked(x, l));
        assert(p != x) by {
            if j > 0 {
                assert(self.linked(self.chain(l)[j - 1], l));
            }
        }
        assert(self.valid(p));
        assert(p != HEAD_ADDR ==> mid.node(p) == self.node(p));
        assert(mid.tower(p) == self.tower(p));
        assert(new.node(x) == mid.node(x));
        assert(p != HEAD_ADDR ==> self.live(p) && self.node_ok(p));
        assert(l < self.tower(p).len());
        assert forall|a: usize| a != x implies (#[trigger] new.live(a) <==> self.live(a)) && (
        self.live(a) ==> new.node_same(self, a)) by {
            if self.live(a) {
                if a == p {
                    assert forall|k: int| 0 <= k < self.tower(a).len() implies #[trigger] new.tag(
                        a,
                        k,
                    ) == self.tag(a, k) by {}
                } else {
                    assert(mid.node(a) == self.node(a));
                    assert(new.node(a) == mid.node(a));
                }
            }
        }
        assert(new.head_same(self)) by {
            assert forall|k: int| 0 <= k < self.tower(HEAD_ADDR).len() implies #[trigger] new.tag(
                HEAD_ADDR,
                k,
            ) == self.tag(HEAD_ADDR, k) by {}
        }
        assert forall|a: usize, k: int|
            self.valid(a) && 0 <= k < self.tower(a).len() && !(a == p && k == l) implies #[trigger] new.next(
            a,
            k,
        ) == self.next(a, k) by {
            if a == p {
            } else if a == x {
            } else if a == HEAD_ADDR {
            } else {
                assert(mid.node(a) == self.node(a));
                assert(new.node(a) == mid.node(a));
            }
        }
        assert(new.node_same_but_refs(self, x)) by {
            assert forall|k: int| 0 <= k < self.tower(x).len() implies #[trigger] new.tag(x, k)
                == self.tag(x, k) by {}
        }
        assert(new.same_chains_but(self, l));
        assert(new.chain(l) == self.chain(l).insert(j, x));
    }

    /// A change to the node at `x` that touches neither key, value, height,
    /// count nor the addresses in its tower is a change of marks.
    pub proof fn lemma_relabelled_intro(self, new: Self, x: usize, tag: usize)
        requires
            self.live(x),
            new.same_elsewhere(self, x),
            new.chains@ == self.chains@,
            new.node(x).key == self.node(x).key,
            new.node(x).val == self.node(x).val,
            new.node(x).spec_height() == self.node(x).spec_height(),
            new.node(x).spec_refs() == self.node(x).spec_refs(),
            new.node(x).levels@.len() == self.node(x).levels@.len(),
            forall|k: int|
                0 <= k < self.node(x).levels@.len() ==> #[trigger] new.node(x).levels@[k] == (
                    self.node(x).levels@[k].0,
                    tag,
                ),
        ensures
            self.relabelled(new, x, tag),
    {
        self.lemma_live_addrs();
        new.lemma_live_addrs();
        assert forall|a: usize| a != x implies (#[trigger] new.live(a) <==> self.live(a)) && (
        self.live(a) ==> new.node_same(self, a)) by {
            if self.live(a) {
                assert(new.node(a) == self.node(a));
            }
        }
        assert forall|a: usize, k: int|
            self.valid(a) && 0 <= k < self.tower(a).len() implies #[trigger] new.next(a, k)
            == self.next(a, k) by {
            if a == x {
                assert(new.node(x).levels@[k] == (self.node(x).levels@[k].0, tag));
            } else if a == HEAD_ADDR {
            } else {
                assert(new.node(a) == self.node(a));
            }
        }
        assert forall|k: int| 0 <= k < self.tower(x).len() implies #[trigger] new.tag(x, k)
            == tag by {
            assert(new.node(x).levels@[k] == (self.node(x).levels@[k].0, tag));
        }
    }

    /// A compare-and-swap that failed has changed nothing.
    pub proof fn lemma_unchanged_intro(self, old: Self, a: usize)
        requires
            old.valid(a),
            self.same_elsewhere(old, a),
            self.chains == old.chains,
            self.tower(a) == old.tower(a),
            a != HEAD_ADDR ==> self.node(a).key == old.node(a).key && self.node(a).val == old.node(
                a,
            ).val && self.node(a).state == old.node(a).state,
        ensures
            self.unchanged(old),
    {
        old.lemma_live_addrs();
        self.lemma_live_addrs();
        assert forall|b: usize| b != NULL implies (#[trigger] self.live(b) <==> old.live(b)) && (
        old.live(b) ==> self.node_same(old, b)) by {
            if old.live(b) && b != a {
                assert(self.node(b) == old.node(b));
            }
        }
        assert forall|b: usize, k: int|
            old.valid(b) && 0 <= k < old.tower(b).len() implies #[trigger] self.next(b, k)
            == old.next(b, k) by {
            if b != a && b != HEAD_ADDR {
                assert(self.node(b) == old.node(b));
            }
        }
    }

    /// What is unchanged is still in order.
    pub proof fn lemma_unchanged_inv(self, new: Self)
        requires
            self.inv(),
            new.unchanged(self),
        ensures
            new.inv(),
            self.complete() ==> new.complete(),
    {
        self.lemma_live_addrs();
        new.lemma_live_addrs();
        assert(new.shape());
        assert forall|k: int| 0 <= k < HEIGHT implies #[trigger] new.chain_ok(k) by {
            assert(self.chain_ok(k));
            assert(self.valid(HEAD_ADDR));
            assert(new.chain(k) == self.chain(k));
            assert forall|i: int| 0 <= i < self.chain(k).len() implies new.live(
                #[trigger] self.chain(k)[i],
            ) && new.key(self.chain(k)[i]) == self.key(self.chain(k)[i]) && new.node(
                self.chain(k)[i],
            ).spec_height() == self.node(self.chain(k)[i]).spec_height() && new.next(
                self.chain(k)[i],
                k,
            ) == self.next(self.chain(k)[i], k) by {
                let b = self.chain(k)[i];
                assert(self.live(b));
                assert(self.node_ok(b));
                assert(self.valid(b));
                assert(new.node_same(self, b));
            }
            self.lemma_level_kept(new, k);
        }
        assert forall|a: usize| #[trigger] new.live(a) implies new.node_ok(a) by {
            assert(self.live(a));
            assert(self.node_ok(a));
            assert(new.node_same(self, a));
            assert forall|k: int| 0 <= k < HEIGHT implies new.linked(a, k) == self.linked(a, k) by {
                assert(new.chain(k) == self.chain(k));
            }
            self.lemma_node_kept(new, a);
        }
        if self.complete() {
            assert forall|a: usize| #[trigger] new.live(a) implies new.tower_complete(a) by {
                assert(self.live(a));
                assert(self.tower_complete(a));
                assert(self.node_ok(a));
                assert(new.node_same(self, a));
                assert(new.tag(a, 0) == self.tag(a, 0));
            }
        }
    }

    /// Position `j` of level `l` brackets `key`: the node before it, if
    /// there is one, has a smaller key, the node at it, if there is one, has
    /// not, and neither carries a tag.
    pub open spec fn bracket(self, key: K, l: int, j: int) -> bool {
        let c = self.chain(l);
        &&& 0 <= j <= c.len()
        &&& (j > 0 ==> lt(self.key(c[j - 1]), key) && self.tag(c[j - 1], 0) == 0)
        &&& (j < c.len() ==> !lt(self.key(c[j]), key) && self.tag(c[j], 0) == 0)
    }

    /// The addresses `pred` and `next` are those around position `j` of level
    /// `l`, and the position brackets `key`.
    pub open spec fn found_at(self, key: K, l: int, j: int, pred: usize, next: usize) -> bool {
        &&& self.bracket(key, l, j)
        &&& pred == self.pred_at(l, j)
        &&& next == self.next_at(l, j)
    }

    /// The position in level `l - 1` behind the node that precedes position
    /// `p` of level `l`.
    pub open spec fn below(self, l: int, p: int) -> int {
        if p <= 0 {
            0
        } else {
            self.chain(l - 1).index_of(self.chain(l)[p - 1]) + 1
        }
    }

    /// A node without a tag that is linked at a level is linked at the level
    /// below, so a search can go down where it stands.
    pub proof fn lemma_below(self, l: int, p: int)
        requires
            self.inv(),
            1 <= l < HEIGHT,
            0 <= p <= self.chain(l).len(),
            p > 0 ==> self.tag(self.chain(l)[p - 1], 0) == 0,
        ensures
            0 <= self.below(l, p) <= self.chain(l - 1).len(),
            self.pred_at(l - 1, self.below(l, p)) == self.pred_at(l, p),
    {
        if p > 0 {
            let a = self.chain(l)[p - 1];
            assert(self.chain_ok(l));
            assert(self.live(a));
            assert(self.node_ok(a));
            assert(self.linked(a, l));
            assert(self.linked(a, l - 1));
            let i = self.chain(l - 1).index_of(a);
        }
    }

    /// Every node is in `self` what it is in `old`, refs and pointers
    /// included, but for the pointer of `x` at level `l`; the levels are the
    /// same.
    pub open spec fn repointed(self, new: Self, x: usize, l: int) -> bool {
        &&& new.nodes@.len() == self.nodes@.len()
        &&& new.head_same(self)
        &&& new.others_same(self, NULL)
        &&& new.same_pointers_but(self, x, l)
        &&& new.chains@ == self.chains@
    }

    /// Setting the pointer of a node at a level that does not link it keeps
    /// the invariant.
    pub proof fn lemma_repoint(self, new: Self, x: usize, l: int)
        requires
            self.inv(),
            self.live(x),
            0 <= l < HEIGHT,
            !self.linked(x, l),
            self.repointed(new, x, l),
        ensures
            new.inv(),
    {
        self.lemma_live_addrs();
        new.lemma_live_addrs();
        assert(new.shape());
        assert forall|k: int| 0 <= k < HEIGHT implies #[trigger] new.chain_ok(k) by {
            assert(self.chain_ok(k));
            assert(self.valid(HEAD_ADDR));
            assert(new.chain(k) == self.chain(k));
            assert forall|i: int| 0 <= i < self.chain(k).len() implies new.live(
                #[trigger] self.chain(k)[i],
            ) && new.key(self.chain(k)[i]) == self.key(self.chain(k)[i]) && new.node(
                self.chain(k)[i],
            ).spec_height() == self.node(self.chain(k)[i]).spec_height() && new.next(
                self.chain(k)[i],
                k,
            ) == self.next(self.chain(k)[i], k) by {
                let b = self.chain(k)[i];
                assert(self.live(b));
                assert(self.node_ok(b));
                assert(self.valid(b));
                assert(new.node_same(self, b));
                assert(self.linked(b, k));
            }
            self.lemma_level_kept(new, k);
        }
        assert forall|a: usize| #[trigger] new.live(a) implies new.node_ok(a) by {
            assert(self.live(a));
            assert(self.node_ok(a));
            assert(new.node_same(self, a));
            assert forall|k: int| 0 <= k < HEIGHT implies new.linked(a, k) == self.linked(a, k) by {
                assert(new.chain(k) == self.chain(k));
            }
            self.lemma_node_kept(new, a);
        }
    }

    /// A compare-and-swap on the pointer of the node at `x` at level `l`,
    /// from one untagged address to another, is a repointing.
    pub proof fn lemma_repointed_intro(self, new: Self, x: usize, l: int, to: usize)
        requires
            self.live(x),
            0 <= l < self.tower(x).len(),
            self.tag(x, l) == 0,
            new.same_elsewhere(self, x),
            new.chains == self.chains,
            new.tower(x) == self.tower(x).update(l, (to, 0usize)),
            new.node(x).key == self.node(x).key,
            new.node(x).val == self.node(x).val,
            new.node(x).state == self.node(x).state,
        ensures
            self.repointed(new, x, l),
    {
        self.lemma_live_addrs();
        new.lemma_live_addrs();
        assert forall|a: usize| a != NULL implies (#[trigger] new.live(a) <==> self.live(a)) && (
        self.live(a) ==> new.node_same(self, a)) by {
            if self.live(a) {
                if a == x {
                    assert forall|k: int| 0 <= k < self.tower(a).len() implies #[trigger] new.tag(
                        a,
                        k,
                    ) == self.tag(a, k) by {}
                } else {
                    assert(new.node(a) == self.node(a));
                }
            }
        }
        assert forall|a: usize, k: int|
            self.valid(a) && 0 <= k < self.tower(a).len() && !(a == x && k == l) implies #[trigger] new.next(
            a,
            k,
        ) == self.next(a, k) by {
            if a == x {
            } else if a == HEAD_ADDR {
            } else {
                assert(new.node(a) == self.node(a));
            }
        }
    }

    /// A node without a tag has no tagged level.
    pub proof fn lemma_untagged(self, a: usize, n: int)
        requires
            self.live(a),
            self.node_ok(a),
            self.tag(a, 0) == 0,
            0 <= n <= self.node(a).spec_height(),
        ensures
            crate::node::Node::<K, V>::top_tagged(self.node(a).levels@, n).is_none(),
        decreases n,
    {
        self.lemma_live_addr(a);
        if n > 0 {
            assert(self.tag(a, n - 1) == self.tag(a, 0));
            self.lemma_untagged(a, n - 1);
        }
    }
}

} // verus!
