//! Equality and order of keys, values and entries through the operators
//! `==` and `<`.

use crate::bytes::{bytes_equal, bytes_lt, ByteOrder};
use crate::lsm::types::{entry_lt, Entry, Key, Value};
use std::cmp::Ordering;
use vstd::prelude::*;
use vstd::std_specs::cmp::{PartialEqSpecImpl, PartialOrdSpecImpl};

verus! {

impl PartialEq for Key {
    fn eq(&self, other: &Self) -> (r: bool) {
        self.same_as(other)
    }
}

impl PartialEqSpecImpl for Key {
    open spec fn obeys_eq_spec() -> bool {
        true
    }

    open spec fn eq_spec(&self, other: &Self) -> bool {
        self@ == other@
    }
}

impl Eq for Key {

}

impl PartialOrd for Key {
    fn partial_cmp(&self, other: &Self) -> (r: Option<Ordering>) {
        match self.compare(other) {
            ByteOrder::Less => Some(Ordering::Less),
            ByteOrder::Equal => Some(Ordering::Equal),
            ByteOrder::Greater => Some(Ordering::Greater),
        }
    }
}

impl PartialOrdSpecImpl for Key {
    open spec fn obeys_partial_cmp_spec() -> bool {
        true
    }

    open spec fn partial_cmp_spec(&self, other: &Self) -> Option<Ordering> {
        if bytes_lt(self@, other@) {
            Some(Ordering::Less)
        } else if self@ == other@ {
            Some(Ordering::Equal)
        } else {
            Some(Ordering::Greater)
        }
    }
}

impl PartialEq for Value {
    fn eq(&self, other: &Self) -> (r: bool) {
        bytes_equal(self.as_bytes(), other.as_bytes())
    }
}

impl PartialEqSpecImpl for Value {
    open spec fn obeys_eq_spec() -> bool {
        true
    }

    open spec fn eq_spec(&self, other: &Self) -> bool {
        self@ == other@
    }
}

impl Eq for Value {

}

/// Two entries are equal where they have the same key and the same
/// sequence number, whatever their values.
impl PartialEq for Entry {
    fn eq(&self, other: &Self) -> (r: bool) {
        self.key.same_as(&other.key) && self.seq_num == other.seq_num
    }
}

impl PartialEqSpecImpl for Entry {
    open spec fn obeys_eq_spec() -> bool {
        true
    }

    open spec fn eq_spec(&self, other: &Self) -> bool {
        self@.key == other@.key && self@.seq_num == other@.seq_num
    }
}

impl Eq for Entry {

}

/// Entries are ordered by key, and within one key the higher sequence
/// number comes first.
impl PartialOrd for Entry {
    fn partial_cmp(&self, other: &Self) -> (r: Option<Ordering>) {
        match self.compare(other) {
            ByteOrder::Less => Some(Ordering::Less),
            ByteOrder::Equal => Some(Ordering::Equal),
            ByteOrder::Greater => Some(Ordering::Greater),
        }
    }
}

impl PartialOrdSpecImpl for Entry {
    open spec fn obeys_partial_cmp_spec() -> bool {
        true
    }

    open spec fn partial_cmp_spec(&self, other: &Self) -> Option<Ordering> {
        if entry_lt(self@, other@) {
            Some(Ordering::Less)
        } else if self@.key == other@.key && self@.seq_num == other@.seq_num {
            Some(Ordering::Equal)
        } else {
            Some(Ordering::Greater)
        }
    }
}

} // verus!
