//! Comparing priorities: two values compare by their numbers; `Now` is not
//! ordered against anything, itself included, so it is equal to nothing and
//! `partial_cmp` gives `None` for it.
use crate::priority::Priority;
use std::cmp::Ordering;
use vstd::prelude::*;

verus! {

impl PartialEq for Priority<i64> {
    fn eq(&self, other: &Self) -> (r: bool) {
        match (self, other) {
            (Priority::Value(a), Priority::Value(b)) => *a == *b,
            _ => false,
        }
    }
}

impl vstd::std_specs::cmp::PartialEqSpecImpl for Priority<i64> {
    open spec fn obeys_eq_spec() -> bool {
        true
    }

    open spec fn eq_spec(&self, other: &Self) -> bool {
        match (self, other) {
            (Priority::Value(a), Priority::Value(b)) => *a == *b,
            _ => false,
        }
    }
}

impl PartialOrd for Priority<i64> {
    fn partial_cmp(&self, other: &Self) -> (r: Option<Ordering>) {
        match (self, other) {
            (Priority::Value(a), Priority::Value(b)) => {
                if *a < *b {
                    Some(Ordering::Less)
                } else if *a == *b {
                    Some(Ordering::Equal)
                } else {
                    Some(Ordering::Greater)
                }
            },
            _ => None,
        }
    }
}

impl vstd::std_specs::cmp::PartialOrdSpecImpl for Priority<i64> {
    open spec fn obeys_partial_cmp_spec() -> bool {
        true
    }

    open spec fn partial_cmp_spec(&self, other: &Self) -> Option<Ordering> {
        match (self, other) {
            (Priority::Value(a), Priority::Value(b)) => if *a < *b {
                Some(Ordering::Less)
            } else if *a == *b {
                Some(Ordering::Equal)
            } else {
                Some(Ordering::Greater)
            },
            _ => None,
        }
    }
}

} // verus!
