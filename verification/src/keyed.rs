//! A value ranked by a key.

use std::cmp::Ordering;
use vstd::prelude::*;
use vstd::std_specs::cmp::{PartialEqSpec, PartialEqSpecImpl, PartialOrdSpec, PartialOrdSpecImpl};

verus! {

/// A value together with the key that it is ranked by. Two of them compare
/// as their keys do; the values play no part.
#[derive(Debug)]
pub struct Keyed<K, T> {
    pub key: K,
    pub value: T,
}

impl<K: Clone, T: Clone> Clone for Keyed<K, T> {
    fn clone(&self) -> (copy: Self)
        ensures
            cloned(self.key, copy.key),
            cloned(self.value, copy.value),
    {
        Keyed { key: self.key.clone(), value: self.value.clone() }
    }
}

impl<K: Copy, T: Copy> Copy for Keyed<K, T> {

}

impl<K: PartialEq, T> PartialEq for Keyed<K, T> {
    fn eq(&self, other: &Self) -> (equal: bool) {
        self.key == other.key
    }
}

impl<K: PartialEq, T> PartialEqSpecImpl for Keyed<K, T> {
    open spec fn obeys_eq_spec() -> bool {
        K::obeys_eq_spec()
    }

    open spec fn eq_spec(&self, other: &Self) -> bool {
        self.key.eq_spec(&other.key)
    }
}

impl<K: Eq, T> Eq for Keyed<K, T> {

}

impl<K: PartialOrd, T> PartialOrd for Keyed<K, T> {
    fn partial_cmp(&self, other: &Self) -> (order: Option<Ordering>) {
        self.key.partial_cmp(&other.key)
    }
}

impl<K: PartialOrd, T> PartialOrdSpecImpl for Keyed<K, T> {
    open spec fn obeys_partial_cmp_spec() -> bool {
        K::obeys_partial_cmp_spec()
    }

    open spec fn partial_cmp_spec(&self, other: &Self) -> Option<Ordering> {
        self.key.partial_cmp_spec(&other.key)
    }
}

} // verus!
