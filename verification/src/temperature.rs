//! The temperature value type: a magnitude stored as its Celsius
//! equivalent, and the unit it is presented in.

use vstd::prelude::*;
use crate::magnitude::{
    eq_at_degree, eq_bits, is_finite_bits, rounded_scaled, rounded_scaled_magnitude, sign_of,
};
use crate::render::{format_value, spec_rendered};

verus! {

/// The unit a temperature is presented in.
#[derive(Clone, Copy, Debug, PartialEq, Eq, Structural)]
pub enum TemperatureUnits {
    Celsius,
    Farenheit,
    Kelvin,
}

/// A temperature measurement. The magnitude is always stored as its
/// Celsius equivalent, carried as the IEEE 754 bit pattern of a 64-bit
/// floating point number, and the unit tag only governs how the value
/// is presented: re-tagging never changes the magnitude.
#[derive(Clone, Copy, Debug)]
pub struct Temperature {
    base_bits: u64,
    units: TemperatureUnits,
}

/// Two temperatures stand for the same measurement: their
/// Celsius-equivalent magnitudes round to the same whole degree, with
/// the presentation units playing no part.
pub open spec fn same_temperature(t1: Temperature, t2: Temperature) -> bool {
    eq_at_degree(t1.magnitude_bits(), t2.magnitude_bits())
}

impl Temperature {
    /// The bit pattern of the Celsius-equivalent magnitude.
    pub closed spec fn magnitude_bits(&self) -> u64 {
        self.base_bits
    }

    /// The presentation unit.
    pub closed spec fn unit(&self) -> TemperatureUnits {
        self.units
    }

    /// The same measurement presented in the given unit.
    pub closed spec fn retagged(&self, units: TemperatureUnits) -> Temperature {
        Temperature { base_bits: self.base_bits, units }
    }

    /// Build a temperature from the bit pattern of its
    /// Celsius-equivalent magnitude and a presentation unit. The unit
    /// conversion that turns a bare number in some unit into its
    /// Celsius equivalent happens before this point.
    pub fn from_celsius_bits(base_bits: u64, units: TemperatureUnits) -> (t: Temperature)
        ensures
            t.magnitude_bits() == base_bits,
            t.unit() == units,
    {
        Temperature { base_bits, units }
    }

    /// The bit pattern of the Celsius-equivalent magnitude: what
    /// extracting this temperature as a bare Celsius number returns.
    pub fn celsius_bits(&self) -> (bits: u64)
        ensures
            bits == self.magnitude_bits(),
    {
        self.base_bits
    }

    /// The presentation unit.
    pub fn units(&self) -> (units: TemperatureUnits)
        ensures
            units == self.unit(),
    {
        self.units
    }

    /// Present this temperature in Celsius; the magnitude is unchanged.
    pub fn as_celsius(&self) -> (t: Self)
        ensures
            t == self.retagged(TemperatureUnits::Celsius),
            t.magnitude_bits() == self.magnitude_bits(),
            t.unit() == TemperatureUnits::Celsius,
    {
        Temperature { base_bits: self.base_bits, units: TemperatureUnits::Celsius }
    }

    /// Present this temperature in Farenheit; the magnitude is
    /// unchanged.
    pub fn as_farenheit(&self) -> (t: Self)
        ensures
            t == self.retagged(TemperatureUnits::Farenheit),
            t.magnitude_bits() == self.magnitude_bits(),
            t.unit() == TemperatureUnits::Farenheit,
    {
        Temperature { base_bits: self.base_bits, units: TemperatureUnits::Farenheit }
    }

    /// Present this temperature in Kelvin; the magnitude is unchanged.
    pub fn as_kelvin(&self) -> (t: Self)
        ensures
            t == self.retagged(TemperatureUnits::Kelvin),
            t.magnitude_bits() == self.magnitude_bits(),
            t.unit() == TemperatureUnits::Kelvin,
    {
        Temperature { base_bits: self.base_bits, units: TemperatureUnits::Kelvin }
    }

    /// The display form of this temperature, given the bit pattern of
    /// the presented value: the magnitude of this temperature already
    /// extracted as a bare number in its own unit. Renders that value
    /// to two decimal places followed by the unit symbol; `None` when
    /// the presented value is not finite, or so large that its rounded
    /// hundredths do not fit in a `u64`, where a caller falls back to
    /// its own formatting.
    pub fn display_with_value_bits(&self, value_bits: u64) -> (r: Option<String>)
        ensures
            match r {
                Some(s) => is_finite_bits(value_bits) && rounded_scaled(value_bits, 100)
                    <= u64::MAX && s@ == spec_rendered(
                    sign_of(value_bits),
                    (rounded_scaled(value_bits, 100) / 100) as nat,
                    (rounded_scaled(value_bits, 100) % 100) as nat,
                    self.unit(),
                ),
                None => !is_finite_bits(value_bits) || rounded_scaled(value_bits, 100) > u64::MAX,
            },
    {
        match rounded_scaled_magnitude(value_bits, 100) {
            Some(hundredths) => {
                let neg = (value_bits >> 63) == 1;
                Some(format_value(neg, hundredths / 100, hundredths % 100, self.units()))
            },
            None => None,
        }
    }
}

impl PartialEq for Temperature {
    /// Temperatures are equal when their Celsius-equivalent magnitudes
    /// round to the same whole degree, whatever their units.
    fn eq(&self, other: &Temperature) -> (r: bool) {
        eq_bits(self.base_bits, other.base_bits)
    }
}

impl vstd::std_specs::cmp::PartialEqSpecImpl for Temperature {
    open spec fn obeys_eq_spec() -> bool {
        true
    }

    open spec fn eq_spec(&self, other: &Temperature) -> bool {
        same_temperature(*self, *other)
    }
}

/// Re-tagging presents the same measurement in another unit: the stored
/// Celsius-equivalent magnitude, and so everything extracted from it,
/// is exactly the one of the original temperature.
pub proof fn lemma_retagging_preserves_magnitude(t: Temperature, units: TemperatureUnits)
    ensures
        t.retagged(units).magnitude_bits() == t.magnitude_bits(),
        t.retagged(units).unit() == units,
{
}

/// Equality of temperatures reads the magnitudes alone: re-tagging
/// either side to any units leaves the comparison unchanged.
pub proof fn lemma_equality_ignores_units(
    t1: Temperature,
    t2: Temperature,
    u1: TemperatureUnits,
    u2: TemperatureUnits,
)
    ensures
        same_temperature(t1.retagged(u1), t2.retagged(u2)) == same_temperature(t1, t2),
{
}

/// Equality of temperatures is symmetric.
pub proof fn lemma_equality_symmetric(t1: Temperature, t2: Temperature)
    ensures
        same_temperature(t1, t2) == same_temperature(t2, t1),
{
}

/// Every temperature whose magnitude pattern is not a NaN equals
/// itself.
pub proof fn lemma_equality_reflexive(t: Temperature)
    requires
        !crate::magnitude::is_nan_bits(t.magnitude_bits()),
    ensures
        same_temperature(t, t),
{
}

/// Equality of temperatures is transitive.
pub proof fn lemma_equality_transitive(t1: Temperature, t2: Temperature, t3: Temperature)
    requires
        same_temperature(t1, t2),
        same_temperature(t2, t3),
    ensures
        same_temperature(t1, t3),
{
}

} // verus!
