//! The exact fixed-point quantity used for prices and sizes.
//!
//! A `Size` is a signed count of quanta; `SIZE_SCALE` quanta make one whole
//! unit. All arithmetic is exact integer arithmetic on the quantum count, so
//! equality and ordering are exact. Quantities handled by the trackers and
//! the book are kept within `MAX_SIZE_UNITS` quanta in magnitude, which
//! leaves ample headroom below `i128::MAX` for the intermediate sums the
//! reconciliation logic forms.

use vstd::prelude::*;

verus! {

/// Quanta per whole unit.
pub const SIZE_SCALE: i128 = 1_000_000_000;

/// Magnitude bound on every quantity the library stores or sums.
pub const MAX_SIZE_UNITS: i128 = 0x1_0000_0000_0000_0000_0000_0000;

/// An exact fixed-point decimal: a signed count of quanta.
#[derive(Clone, Copy, Debug, PartialEq, Eq, Structural)]
pub struct Size {
    pub units: i128,
}

impl Size {
    /// The quantity with the given quantum count.
    pub fn from_units(units: i128) -> (r: Size)
        ensures
            r.units == units,
    {
        Size { units }
    }

    /// The quantity of `v` whole units.
    pub fn from_int(v: i128) -> (r: Size)
        requires
            -MAX_SIZE_UNITS <= v * SIZE_SCALE <= MAX_SIZE_UNITS,
        ensures
            r.units == v * SIZE_SCALE,
    {
        proof {
            assert(-MAX_SIZE_UNITS <= v * SIZE_SCALE <= MAX_SIZE_UNITS);
        }
        Size { units: v * SIZE_SCALE }
    }

    /// The zero quantity.
    pub fn zero() -> (r: Size)
        ensures
            r.units == 0,
    {
        Size { units: 0 }
    }

    /// Exact sum.
    pub fn plus(self, other: Size) -> (r: Size)
        requires
            i128::MIN <= self.units + other.units <= i128::MAX,
        ensures
            r.units == self.units + other.units,
    {
        Size { units: self.units + other.units }
    }

    /// Exact difference.
    pub fn minus(self, other: Size) -> (r: Size)
        requires
            i128::MIN <= self.units - other.units <= i128::MAX,
        ensures
            r.units == self.units - other.units,
    {
        Size { units: self.units - other.units }
    }

    /// Exact product with an integer scalar.
    pub fn times_int(self, k: i128) -> (r: Size)
        requires
            i128::MIN <= self.units * k <= i128::MAX,
        ensures
            r.units == self.units * k,
    {
        Size { units: self.units * k }
    }

    /// Exact quotient by an integer scalar; the division must be exact.
    pub fn div_int(self, k: i128) -> (r: Size)
        requires
            self.units >= 0,
            k > 0,
            self.units % k == 0,
        ensures
            r.units == self.units / k,
    {
        Size { units: self.units / k }
    }

    /// True iff the quantity is exactly zero.
    pub fn is_zero(self) -> (r: bool)
        ensures
            r == (self.units == 0),
    {
        self.units == 0
    }
}

} // verus!
