use vstd::prelude::*;

verus! {

/// Keep a running minimum or maximum: replace the value when the candidate
/// improves on it, and report whether a replacement happened.
pub trait SetMinMax: Sized {
    /// The strict order the two operations go by.
    spec fn below(self, other: Self) -> bool;

    fn set_min(&mut self, v: Self) -> (changed: bool)
        ensures
            changed == v.below(*old(self)),
            *final(self) == (if v.below(*old(self)) { v } else { *old(self) }),
    ;

    fn set_max(&mut self, v: Self) -> (changed: bool)
        ensures
            changed == (*old(self)).below(v),
            *final(self) == (if (*old(self)).below(v) { v } else { *old(self) }),
    ;
}

impl SetMinMax for i64 {
    open spec fn below(self, other: Self) -> bool {
        self < other
    }

    fn set_min(&mut self, v: Self) -> (changed: bool) {
        if *self > v {
            *self = v;
            true
        } else {
            false
        }
    }

    fn set_max(&mut self, v: Self) -> (changed: bool) {
        if *self < v {
            *self = v;
            true
        } else {
            false
        }
    }
}

impl SetMinMax for i32 {
    open spec fn below(self, other: Self) -> bool {
        self < other
    }

    fn set_min(&mut self, v: Self) -> (changed: bool) {
        if *self > v {
            *self = v;
            true
        } else {
            false
        }
    }

    fn set_max(&mut self, v: Self) -> (changed: bool) {
        if *self < v {
            *self = v;
            true
        } else {
            false
        }
    }
}

impl SetMinMax for u64 {
    open spec fn below(self, other: Self) -> bool {
        self < other
    }

    fn set_min(&mut self, v: Self) -> (changed: bool) {
        if *self > v {
            *self = v;
            true
        } else {
            false
        }
    }

    fn set_max(&mut self, v: Self) -> (changed: bool) {
        if *self < v {
            *self = v;
            true
        } else {
            false
        }
    }
}

impl SetMinMax for usize {
    open spec fn below(self, other: Self) -> bool {
        self < other
    }

    fn set_min(&mut self, v: Self) -> (changed: bool) {
        if *self > v {
            *self = v;
            true
        } else {
            false
        }
    }

    fn set_max(&mut self, v: Self) -> (changed: bool) {
        if *self < v {
            *self = v;
            true
        } else {
            false
        }
    }
}

} // verus!
