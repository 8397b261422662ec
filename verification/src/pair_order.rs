//! The order of key/value pairs.

use crate::key_order::{key_less, key_lt};
use crate::node_type::KeyValuePair;
use std::cmp::Ordering;
use vstd::prelude::*;

verus! {

/// Pairs are ordered by their keys alone.
impl PartialOrd for KeyValuePair {
    fn partial_cmp(&self, other: &Self) -> (res: Option<Ordering>) {
        if key_less(self.key.as_str(), other.key.as_str()) {
            Some(Ordering::Less)
        } else if key_less(other.key.as_str(), self.key.as_str()) {
            Some(Ordering::Greater)
        } else {
            Some(Ordering::Equal)
        }
    }
}

impl vstd::std_specs::cmp::PartialOrdSpecImpl for KeyValuePair {
    open spec fn obeys_partial_cmp_spec() -> bool {
        true
    }

    open spec fn partial_cmp_spec(&self, other: &Self) -> Option<Ordering> {
        if key_lt(self.key@, other.key@) {
            Some(Ordering::Less)
        } else if key_lt(other.key@, self.key@) {
            Some(Ordering::Greater)
        } else {
            Some(Ordering::Equal)
        }
    }
}

} // verus!
