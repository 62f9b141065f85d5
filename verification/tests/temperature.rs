use temperature::magnitude::rounded_scaled_magnitude;
use temperature::{format_value, decimal_string, unit_symbol, Temperature, TemperatureUnits};

fn to_celsius(x: f64) -> Temperature {
    Temperature::from_celsius_bits(x.to_bits(), TemperatureUnits::Celsius)
}

fn to_farenheit(x: f64) -> Temperature {
    Temperature::from_celsius_bits(((x - 32.0) / 1.8).to_bits(), TemperatureUnits::Farenheit)
}

fn to_kelvin(x: f64) -> Temperature {
    Temperature::from_celsius_bits((x - 273.15).to_bits(), TemperatureUnits::Kelvin)
}

/// Extraction back to a bare number: the tagged unit's formula applied
/// to the stored Celsius-equivalent magnitude.
fn extract(t: &Temperature) -> f64 {
    let base = f64::from_bits(t.celsius_bits());
    match t.units() {
        TemperatureUnits::Celsius => base,
        TemperatureUnits::Farenheit => base * 1.8 + 32.0,
        TemperatureUnits::Kelvin => base + 273.15,
    }
}

fn display(t: &Temperature) -> String {
    let value = extract(t);
    t.display_with_value_bits(value.to_bits())
        .expect("value is finite and of moderate size")
}

#[test]
pub fn equality() {
    println!("{}", display(&to_farenheit(54.0)));

    assert_eq!(to_celsius(0.0), to_farenheit(32.0));
    assert_eq!(to_kelvin(0.0), to_celsius(-273.15));
    assert_eq!(to_farenheit(32.0), to_kelvin(273.15));
}

#[test]
fn equality_granularity() {
    assert_eq!(to_celsius(0.4), to_celsius(0.0));
    assert_ne!(to_celsius(0.6), to_celsius(0.0));
    assert_eq!(to_celsius(-0.4), to_celsius(0.0));
    assert_ne!(to_celsius(-0.6), to_celsius(0.0));
    assert_ne!(to_celsius(0.6), to_celsius(-0.6));
    assert_eq!(to_celsius(12.49), to_celsius(11.5));
}

#[test]
fn equality_matches_float_rounding() {
    let values = [
        0.0,
        -0.0,
        0.4,
        0.5,
        0.6,
        -0.4,
        -0.5,
        -0.6,
        1.0,
        1.5,
        2.5,
        -273.15,
        273.15,
        1e-300,
        -1e-300,
        4.5e15,
        4503599627370495.5,
        9.0e15,
        1.8e19,
        1.9e19,
        1.0e300,
        -1.0e300,
        f64::MAX,
        f64::MIN,
        f64::INFINITY,
        f64::NEG_INFINITY,
        f64::NAN,
    ];
    for &a in values.iter() {
        for &b in values.iter() {
            let expected = a.round() == b.round();
            let got = to_celsius(a) == to_celsius(b);
            assert_eq!(got, expected, "comparing {a} and {b}");
        }
    }
    // Neighbouring huge values are distinct wholes.
    let big: f64 = 1.0e300;
    let next = f64::from_bits(big.to_bits() + 1);
    assert_ne!(to_celsius(big), to_celsius(next));
    assert_eq!(to_celsius(big), to_celsius(big));
}

#[test]
fn equality_ignores_units() {
    let t1 = to_celsius(21.3);
    let t2 = to_farenheit(70.34);
    assert_eq!(t1, t2);
    assert_eq!(t1.as_kelvin(), t2);
    assert_eq!(t1, t2.as_celsius());
    assert_eq!(t1.as_farenheit(), t2.as_kelvin());
}

#[test]
fn retagging_preserves_magnitude() {
    let t = to_kelvin(300.0);
    assert_eq!(t.as_farenheit().celsius_bits(), t.celsius_bits());
    assert_eq!(t.as_celsius().celsius_bits(), t.celsius_bits());
    assert_eq!(t.as_kelvin().celsius_bits(), t.celsius_bits());
    assert_eq!(t.as_farenheit().units(), TemperatureUnits::Farenheit);
    assert_eq!(t.as_celsius().units(), TemperatureUnits::Celsius);
    assert_eq!(t.as_kelvin().units(), TemperatureUnits::Kelvin);
    let c = extract(&t.as_celsius());
    let c_after = extract(&t.as_farenheit().as_celsius());
    assert_eq!(c.to_bits(), c_after.to_bits());
}

#[test]
fn round_trip_identity() {
    for &x in [0.0, 32.0, -40.0, 98.6, 451.0, 1.0e6, -273.15].iter() {
        let c = extract(&to_celsius(x));
        assert_eq!(c, x);
        let f = extract(&to_farenheit(x));
        assert!((f - x).abs() <= 1e-9 * x.abs().max(1.0), "{f} vs {x}");
        let k = extract(&to_kelvin(x));
        assert!((k - x).abs() <= 1e-9 * x.abs().max(1.0), "{k} vs {x}");
    }
}

#[test]
fn display_forms() {
    assert_eq!(display(&to_celsius(0.0)), "0.00°C");
    assert_eq!(display(&to_farenheit(32.0)), "32.00°F");
    assert_eq!(display(&to_kelvin(0.0)), "0.00K");
    assert_eq!(display(&to_kelvin(273.15)), "273.15K");
    assert_eq!(display(&to_celsius(-273.15)), "-273.15°C");
    assert_eq!(display(&to_farenheit(54.0)), "54.00°F");
}

#[test]
fn display_matches_float_formatting() {
    // Values whose hundredths are no exact halves, so that the house
    // rounding and the standard library's agree.
    let values = [0.0, -0.0, 0.004, -0.004, 1.0, -1.9, 3.14159, 99.994, 99.996, 12345.6789];
    for &v in values.iter() {
        let t = to_celsius(v);
        assert_eq!(display(&t), format!("{:.2}°C", v), "displaying {v}");
    }
}

#[test]
fn display_declines_unrenderable_values() {
    let t = to_celsius(1.0e300);
    assert_eq!(t.display_with_value_bits(extract(&t).to_bits()), None);
    let nan = to_celsius(f64::NAN);
    assert_eq!(nan.display_with_value_bits(extract(&nan).to_bits()), None);
    let inf = to_celsius(f64::INFINITY);
    assert_eq!(inf.display_with_value_bits(extract(&inf).to_bits()), None);
}

#[test]
fn decimal_strings() {
    assert_eq!(decimal_string(0), "0");
    assert_eq!(decimal_string(7), "7");
    assert_eq!(decimal_string(42), "42");
    assert_eq!(decimal_string(1000), "1000");
    assert_eq!(decimal_string(u64::MAX), "18446744073709551615");
}

#[test]
fn unit_symbols() {
    assert_eq!(unit_symbol(TemperatureUnits::Celsius), "°C");
    assert_eq!(unit_symbol(TemperatureUnits::Farenheit), "°F");
    assert_eq!(unit_symbol(TemperatureUnits::Kelvin), "K");
}

#[test]
fn format_value_forms() {
    assert_eq!(format_value(false, 0, 0, TemperatureUnits::Celsius), "0.00°C");
    assert_eq!(format_value(true, 3, 7, TemperatureUnits::Celsius), "-3.07°C");
    assert_eq!(format_value(false, 273, 15, TemperatureUnits::Kelvin), "273.15K");
    assert_eq!(format_value(true, 0, 99, TemperatureUnits::Farenheit), "-0.99°F");
}

#[test]
fn rounding_is_half_away_from_zero() {
    assert_eq!(rounded_scaled_magnitude((2.5f64).to_bits(), 1), Some(3));
    assert_eq!(rounded_scaled_magnitude((-2.5f64).to_bits(), 1), Some(3));
    assert_eq!(rounded_scaled_magnitude((2.4f64).to_bits(), 1), Some(2));
    assert_eq!(rounded_scaled_magnitude((0.125f64).to_bits(), 100), Some(13));
    assert_eq!(rounded_scaled_magnitude((0.0f64).to_bits(), 100), Some(0));
    assert_eq!(rounded_scaled_magnitude(f64::NAN.to_bits(), 1), None);
    assert_eq!(rounded_scaled_magnitude(f64::INFINITY.to_bits(), 1), None);
    assert_eq!(rounded_scaled_magnitude((1.0e300f64).to_bits(), 1), None);
    assert_eq!(rounded_scaled_magnitude((5.0e-324f64).to_bits(), 1000), Some(0));
}

#[test]
fn single_precision_consistency() {
    for &x in [0.0f32, 32.0, -40.0, 98.6, 451.0].iter() {
        let t = to_celsius(x as f64);
        let back = extract(&t) as f32;
        assert_eq!(back, x);
        let tf = to_farenheit(x as f64);
        let back_f = extract(&tf) as f32;
        assert!((back_f - x).abs() <= f32::EPSILON * x.abs().max(1.0), "{back_f} vs {x}");
    }
}
