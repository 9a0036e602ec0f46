use vstd::prelude::*;

verus! {

/// `v` limited to the range `[min, max]`.
pub open spec fn clamp_int(v: int, min: int, max: int) -> int {
    if v < min {
        min
    } else if v > max {
        max
    } else {
        v
    }
}

/// Limiting a value to a range.
pub trait Clamp: Sized {
    /// The value as an integer.
    spec fn as_int(&self) -> int;

    /// Returns this value limited to `[min, max]`.
    fn clamp(self, min: Self, max: Self) -> (r: Self)
        requires
            min.as_int() <= max.as_int(),
        ensures
            r.as_int() == clamp_int(self.as_int(), min.as_int(), max.as_int());
}

impl Clamp for u8 {
    open spec fn as_int(&self) -> int {
        *self as int
    }

    fn clamp(self, min: u8, max: u8) -> (r: u8) {
        if self < min {
            min
        } else if self > max {
            max
        } else {
            self
        }
    }
}

impl Clamp for u32 {
    open spec fn as_int(&self) -> int {
        *self as int
    }

    fn clamp(self, min: u32, max: u32) -> (r: u32) {
        if self < min {
            min
        } else if self > max {
            max
        } else {
            self
        }
    }
}

impl Clamp for u64 {
    open spec fn as_int(&self) -> int {
        *self as int
    }

    fn clamp(self, min: u64, max: u64) -> (r: u64) {
        if self < min {
            min
        } else if self > max {
            max
        } else {
            self
        }
    }
}

} // verus!
