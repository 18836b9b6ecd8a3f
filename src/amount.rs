use vstd::prelude::*;

verus! {

/// The largest magnitude of an amount, in ten-thousandths: the 96-bit mantissa
/// bound of a decimal number.
pub const MAX_UNITS: i128 = 79228162514264337593543950335;

/// Ten-thousandths in one whole unit.
pub const UNITS_PER_WHOLE: i128 = 10000;

/// A signed fixed-point amount with four decimal places, held as a count of
/// ten-thousandths.
#[derive(Clone, Copy, Debug, PartialEq, Eq, Structural)]
pub struct Amount {
    pub units: i128,
}

/// Whether a count of ten-thousandths is a representable amount.
pub open spec fn in_range(u: int) -> bool {
    -MAX_UNITS <= u <= MAX_UNITS
}

impl Amount {
    pub open spec fn wf(self) -> bool {
        in_range(self.units as int)
    }

    /// The amount with no funds.
    pub fn zero() -> (r: Amount)
        ensures
            r.units == 0,
            r.wf(),
    {
        Amount { units: 0 }
    }

    /// The amount of `n` whole units.
    pub fn from_whole(n: i64) -> (r: Amount)
        ensures
            r.units == n as int * UNITS_PER_WHOLE,
            r.wf(),
    {
        assert(-0x8000_0000_0000_0000 * 10000 <= n as int * 10000 <= 0x7fff_ffff_ffff_ffff * 10000)
            by (nonlinear_arith);
        Amount { units: n as i128 * UNITS_PER_WHOLE }
    }

    /// The amount of `units` ten-thousandths, if it is representable.
    pub fn from_units(units: i128) -> (r: Option<Amount>)
        ensures
            r == (if in_range(units as int) { Some(Amount { units }) } else { None::<Amount> }),
    {
        if -MAX_UNITS <= units && units <= MAX_UNITS {
            Some(Amount { units })
        } else {
            None
        }
    }

    /// The sum of two amounts, or `None` where it is not representable.
    pub fn checked_add(self, other: Amount) -> (r: Option<Amount>)
        requires
            self.wf(),
            other.wf(),
        ensures
            r == (if in_range(self.units + other.units) {
                Some(Amount { units: (self.units + other.units) as i128 })
            } else {
                None::<Amount>
            }),
    {
        Amount::from_units(self.units + other.units)
    }

    /// The difference of two amounts, or `None` where it is not representable.
    pub fn checked_sub(self, other: Amount) -> (r: Option<Amount>)
        requires
            self.wf(),
            other.wf(),
        ensures
            r == (if in_range(self.units - other.units) {
                Some(Amount { units: (self.units - other.units) as i128 })
            } else {
                None::<Amount>
            }),
    {
        Amount::from_units(self.units - other.units)
    }
}

} // verus!
