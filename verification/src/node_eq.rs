use vstd::prelude::*;
use vstd::std_specs::cmp::{PartialEqSpec, PartialEqSpecImpl};
use crate::node::Node;

verus! {

/// Two nodes are equal when they hold equal keys and equal values; towers
/// and state words are not compared.
impl<K: PartialEq, V: PartialEq> PartialEq for Node<K, V> {
    fn eq(&self, other: &Self) -> (r: bool) {
        self.key == other.key && self.val == other.val
    }
}

impl<K: PartialEq, V: PartialEq> PartialEqSpecImpl for Node<K, V> {
    open spec fn obeys_eq_spec() -> bool {
        K::obeys_eq_spec() && V::obeys_eq_spec()
    }

    open spec fn eq_spec(&self, other: &Self) -> bool {
        self.key.eq_spec(&other.key) && self.val.eq_spec(&other.val)
    }
}

} // verus!
