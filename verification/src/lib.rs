//! A unit-aware temperature value type.
//!
//! A temperature is a magnitude, always stored as its Celsius
//! equivalent, together with the unit it is presented in (Celsius,
//! Farenheit or Kelvin). Re-tagging a value to another unit never
//! changes the magnitude. Two temperatures are equal when their
//! Celsius-equivalent magnitudes round to the same whole degree,
//! whatever their units; display shows the presented value to two
//! decimal places followed by the unit symbol.
//!
//! The magnitude travels as the bit pattern of a 64-bit floating point
//! number. The roundings behind equality and display are computed on
//! that pattern with integer arithmetic and verified against IEEE 754;
//! the unit conversion formulas themselves work on bare floats and stay
//! with the caller.

pub mod magnitude;
pub mod render;
pub mod temperature;

pub use render::decimal_string;
pub use render::format_value;
pub use render::unit_symbol;
pub use temperature::same_temperature;
pub use temperature::Temperature;
pub use temperature::TemperatureUnits;
