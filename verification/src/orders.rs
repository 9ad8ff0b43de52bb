//! How levels of channels and witnesses compare: every level is as good as
//! another, and a witness is its identity.

use std::cmp::Ordering;
use vstd::prelude::*;
use crate::ast::{ChanLevel, Witness};

verus! {

impl PartialEq for ChanLevel {
    fn eq(&self, _other: &ChanLevel) -> (r: bool) {
        true
    }
}

impl vstd::std_specs::cmp::PartialEqSpecImpl for ChanLevel {
    open spec fn obeys_eq_spec() -> bool {
        true
    }

    open spec fn eq_spec(&self, _other: &ChanLevel) -> bool {
        true
    }
}

impl PartialOrd for ChanLevel {
    fn partial_cmp(&self, _other: &ChanLevel) -> (r: Option<Ordering>) {
        Some(Ordering::Equal)
    }
}

impl vstd::std_specs::cmp::PartialOrdSpecImpl for ChanLevel {
    open spec fn obeys_partial_cmp_spec() -> bool {
        true
    }

    open spec fn partial_cmp_spec(&self, _other: &ChanLevel) -> Option<Ordering> {
        Some(Ordering::Equal)
    }
}

impl PartialEq for Witness {
    fn eq(&self, other: &Witness) -> (r: bool) {
        self.id == other.id
    }
}

impl vstd::std_specs::cmp::PartialEqSpecImpl for Witness {
    open spec fn obeys_eq_spec() -> bool {
        true
    }

    open spec fn eq_spec(&self, other: &Witness) -> bool {
        self.id == other.id
    }
}

impl PartialOrd for Witness {
    fn partial_cmp(&self, other: &Witness) -> (r: Option<Ordering>) {
        let a: u32 = (self.id.0).0;
        let b: u32 = (other.id.0).0;
        if a < b {
            Some(Ordering::Less)
        } else if a == b {
            Some(Ordering::Equal)
        } else {
            Some(Ordering::Greater)
        }
    }
}

impl vstd::std_specs::cmp::PartialOrdSpecImpl for Witness {
    open spec fn obeys_partial_cmp_spec() -> bool {
        true
    }

    open spec fn partial_cmp_spec(&self, other: &Witness) -> Option<Ordering> {
        if (self.id.0).0 < (other.id.0).0 {
            Some(Ordering::Less)
        } else if self.id == other.id {
            Some(Ordering::Equal)
        } else {
            Some(Ordering::Greater)
        }
    }
}

} // verus!
