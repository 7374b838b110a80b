use vstd::prelude::*;
use crate::tagged::{MaybeTagged, NULL};

verus! {

/// The garbage collection of the list: which addresses are protected at the
/// moment, and which nodes have been retired and wait to be freed.
///
/// A retired node is freed only once nothing protects its address.
pub struct Can {
    pub hazards: Vec<usize>,
    pub retired: Vec<usize>,
}

/// A node address together with the protection that was installed for it.
/// The only way to reach a node that was read from a shared pointer.
#[derive(Debug, PartialEq, Eq, Structural)]
pub struct NodeRef {
    pub addr: usize,
}

impl NodeRef {
    /// Protects `addr` and hands out the reference.
    pub fn from_raw(addr: usize, can: &mut Can) -> (r: NodeRef)
        requires
            addr != NULL,
        ensures
            r.addr == addr,
            final(can).hazards@ == old(can).hazards@.push(addr),
            final(can).retired@ == old(can).retired@,
    {
        can.protect_raw(addr);
        NodeRef { addr }
    }

    /// Reads the address in `cell` and protects it; `None` for null.
    pub fn from_maybe_tagged(cell: &MaybeTagged, can: &mut Can) -> (r: Option<NodeRef>)
        ensures
            cell@.0 == NULL ==> r.is_none() && *final(can) == *old(can),
            cell@.0 != NULL ==> r.is_some() && r.unwrap().addr == cell@.0 && final(can).hazards@
                == old(can).hazards@.push(cell@.0) && final(can).retired@ == old(can).retired@,
    {
        can.protect(cell)
    }

    /// The address.
    pub fn as_ptr(&self) -> (addr: usize)
        ensures
            addr == self.addr,
    {
        self.addr
    }

    /// A second reference to the same node, with a protection of its own.
    pub fn duplicate(&self, can: &mut Can) -> (r: NodeRef)
        requires
            self.addr != NULL,
        ensures
            r.addr == self.addr,
            final(can).hazards@ == old(can).hazards@.push(self.addr),
            final(can).retired@ == old(can).retired@,
    {
        NodeRef::from_raw(self.addr, can)
    }
}

/// A list with one more element at its end holds what it held, and the
/// new element.
pub proof fn lemma_pushed(before: Seq<usize>, after: Seq<usize>, a: usize)
    requires
        after == before.push(a),
    ensures
        after.contains(a),
        forall|b: usize| before.contains(b) ==> #[trigger] after.contains(b),
        forall|b: usize| #[trigger] after.contains(b) ==> before.contains(b) || b == a,
        before.no_duplicates() && !before.contains(a) ==> after.no_duplicates(),
{
    assert(after[before.len() as int] == a);
    assert forall|b: usize| before.contains(b) implies #[trigger] after.contains(b) by {
        let i = choose|i: int| 0 <= i < before.len() && before[i] == b;
        assert(after[i] == b);
    }
    assert forall|b: usize| #[trigger] after.contains(b) implies before.contains(b) || b == a by {
        let i = choose|i: int| 0 <= i < after.len() && after[i] == b;
        if i < before.len() {
            assert(before[i] == b);
        }
    }
    if before.no_duplicates() && !before.contains(a) {
        assert forall|x: int, y: int|
            0 <= x < after.len() && 0 <= y < after.len() && x != y implies after[x] != after[y] by {
            if x < before.len() && y < before.len() {
                assert(before[x] != before[y]);
            } else if x < before.len() {
                assert(before.contains(before[x]));
            } else {
                assert(before.contains(before[y]));
            }
        }
    }
}

/// The address in an optional reference, null for `None`.
pub open spec fn addr_or_null(r: Option<NodeRef>) -> usize {
    match r {
        Some(n) => n.addr,
        None => NULL,
    }
}

/// The address in an optional reference, null for `None`.
pub fn ptr_or_null(r: &Option<NodeRef>) -> (addr: usize)
    ensures
        addr == addr_or_null(*r),
{
    match r {
        Some(n) => n.addr,
        None => NULL,
    }
}

impl Can {
    /// Something protects `addr`.
    pub open spec fn protects(self, addr: usize) -> bool {
        self.hazards@.contains(addr)
    }

    /// The node at `addr` has been retired and not yet freed.
    pub open spec fn holds(self, addr: usize) -> bool {
        self.retired@.contains(addr)
    }

    /// Nothing protected, nothing retired.
    pub fn new() -> (can: Self)
        ensures
            can.hazards@.len() == 0,
            can.retired@.len() == 0,
    {
        Can { hazards: Vec::new(), retired: Vec::new() }
    }

    /// Installs a protection for `addr`.
    pub fn protect_raw(&mut self, addr: usize)
        ensures
            final(self).hazards@ == old(self).hazards@.push(addr),
            final(self).retired@ == old(self).retired@,
    {
        self.hazards.push(addr);
    }

    /// Reads `cell` and installs a protection for the address found there.
    /// Returns the address that is now protected, or `None` for null.
    pub fn protect(&mut self, cell: &MaybeTagged) -> (r: Option<NodeRef>)
        ensures
            cell@.0 == NULL ==> r.is_none() && *final(self) == *old(self),
            cell@.0 != NULL ==> r.is_some() && r.unwrap().addr == cell@.0 && final(self).hazards@
                == old(self).hazards@.push(cell@.0) && final(self).retired@ == old(self).retired@,
    {
        let addr = cell.load_ptr();
        if addr == NULL {
            None
        } else {
            self.protect_raw(addr);
            Some(NodeRef { addr })
        }
    }

    /// Drops every protection: the references handed out so far are given up.
    pub fn release_all(&mut self)
        ensures
            final(self).hazards@.len() == 0,
            final(self).retired@ == old(self).retired@,
    {
        self.hazards.clear();
    }

    /// Whether something protects `addr`.
    pub fn is_protected(&self, addr: usize) -> (r: bool)
        ensures
            r == self.protects(addr),
    {
        let mut i: usize = 0;
        while i < self.hazards.len()
            invariant
                i <= self.hazards@.len(),
                forall|j: int| 0 <= j < i ==> self.hazards@[j] != addr,
            decreases self.hazards@.len() - i,
        {
            if self.hazards[i] == addr {
                return true;
            }
            i += 1;
        }
        false
    }

    /// Hands the node at `addr` over for deferred reclamation.
    pub fn retire(&mut self, addr: usize)
        ensures
            final(self).retired@ == old(self).retired@.push(addr),
            final(self).hazards@ == old(self).hazards@,
    {
        self.retired.push(addr);
    }

    /// Takes out of the retired nodes those that nothing protects and
    /// returns them, each once: they can be freed now. The protected ones
    /// stay retired.
    pub fn eager_reclaim(&mut self) -> (freed: Vec<usize>)
        requires
            old(self).retired@.no_duplicates(),
        ensures
            final(self).hazards@ == old(self).hazards@,
            freed@.no_duplicates(),
            final(self).retired@.no_duplicates(),
            forall|a: usize|
                freed@.contains(a) <==> old(self).holds(a) && !old(self).protects(a),
            forall|a: usize|
                final(self).holds(a) <==> old(self).holds(a) && old(self).protects(a),
            freed@.len() + final(self).retired@.len() == old(self).retired@.len(),
    {
        let mut freed: Vec<usize> = Vec::new();
        let mut kept: Vec<usize> = Vec::new();
        let mut i: usize = 0;
        while i < self.retired.len()
            invariant
                i <= self.retired@.len(),
                self.retired@ == old(self).retired@,
                self.hazards@ == old(self).hazards@,
                self.retired@.no_duplicates(),
                freed@.no_duplicates(),
                kept@.no_duplicates(),
                freed@.len() + kept@.len() == i,
                forall|a: usize|
                    freed@.contains(a) <==> (exists|j: int|
                        0 <= j < i && self.retired@[j] == a) && !self.protects(a),
                forall|a: usize|
                    kept@.contains(a) <==> (exists|j: int| 0 <= j < i && self.retired@[j] == a)
                        && self.protects(a),
            decreases self.retired@.len() - i,
        {
            let a = self.retired[i];
            let ghost f0 = freed@;
            let ghost k0 = kept@;
            let protected = self.is_protected(a);
            if protected {
                kept.push(a);
            } else {
                freed.push(a);
            }
            proof {
                assert(!f0.contains(a) && !k0.contains(a)) by {
                    if f0.contains(a) || k0.contains(a) {
                        let j = choose|j: int| 0 <= j < i && self.retired@[j] == a;
                        assert(self.retired@[j] == self.retired@[i as int]);
                    }
                }
                if protected {
                    lemma_pushed(k0, kept@, a);
                } else {
                    lemma_pushed(f0, freed@, a);
                }
                assert forall|b: usize|
                    (freed@.contains(b) <==> (exists|j: int|
                        0 <= j < i + 1 && self.retired@[j] == b) && !self.protects(b)) && (
                    kept@.contains(b) <==> (exists|j: int| 0 <= j < i + 1 && self.retired@[j] == b)
                        && self.protects(b)) by {
                    if f0.contains(b) || k0.contains(b) {
                        let j = choose|j: int| 0 <= j < i && self.retired@[j] == b;
                        assert(0 <= j < i + 1 && self.retired@[j] == b);
                    }
                    if b == a {
                        assert(0 <= i < i + 1 && self.retired@[i as int] == b);
                    }
                    if exists|j: int| 0 <= j < i + 1 && self.retired@[j] == b {
                        let j = choose|j: int| 0 <= j < i + 1 && self.retired@[j] == b;
                        if j < i {
                            assert(0 <= j < i && self.retired@[j] == b);
                        }
                    }
                }
            }
            i += 1;
        }
        proof {
            assert forall|a: usize| freed@.contains(a) <==> old(self).holds(a) && !old(self).protects(a) by {
                if old(self).holds(a) {
                    let j = choose|j: int| 0 <= j < self.retired@.len() && self.retired@[j] == a;
                    assert(0 <= j < i && self.retired@[j] == a);
                }
            }
            assert forall|a: usize| kept@.contains(a) <==> old(self).holds(a) && old(self).protects(
                a,
            ) by {
                if old(self).holds(a) {
                    let j = choose|j: int| 0 <= j < self.retired@.len() && self.retired@[j] == a;
                    assert(0 <= j < i && self.retired@[j] == a);
                }
            }
        }
        self.retired = kept;
        freed
    }
}

} // verus!
