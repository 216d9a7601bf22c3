//! The `==` and the `clone` of property lists: equality of their values, and
//! a copy with the same value.

use vstd::prelude::*;
use vstd::std_specs::cmp::PartialEqSpecImpl;
use crate::plist::{Dictionary, Plist};

verus! {

impl PartialEq for Plist {
    fn eq(&self, other: &Plist) -> (r: bool) {
        self.same(other)
    }
}

impl PartialEqSpecImpl for Plist {
    open spec fn obeys_eq_spec() -> bool {
        true
    }

    open spec fn eq_spec(&self, other: &Plist) -> bool {
        self@ == other@
    }
}

impl PartialEq for Dictionary {
    fn eq(&self, other: &Dictionary) -> (r: bool) {
        self.same(other)
    }
}

impl PartialEqSpecImpl for Dictionary {
    open spec fn obeys_eq_spec() -> bool {
        true
    }

    open spec fn eq_spec(&self, other: &Dictionary) -> bool {
        self@ == other@
    }
}

impl Clone for Plist {
    fn clone(&self) -> (r: Plist)
        ensures
            r@ == self@,
    {
        self.duplicate()
    }
}

impl Clone for Dictionary {
    fn clone(&self) -> (r: Dictionary)
        ensures
            r@ == self@,
    {
        self.duplicate()
    }
}

} // verus!
