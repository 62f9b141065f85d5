//! Textual presentation of a temperature: the presented value rounded
//! to two decimal places, followed by the unit symbol.

use vstd::prelude::*;
use vstd::string::StringExecFns;
use crate::temperature::TemperatureUnits;

verus! {

/// The decimal digit character for a value below ten.
pub open spec fn spec_digit(d: nat) -> char {
    if d == 0 {
        '0'
    } else if d == 1 {
        '1'
    } else if d == 2 {
        '2'
    } else if d == 3 {
        '3'
    } else if d == 4 {
        '4'
    } else if d == 5 {
        '5'
    } else if d == 6 {
        '6'
    } else if d == 7 {
        '7'
    } else if d == 8 {
        '8'
    } else {
        '9'
    }
}

/// The decimal digits of a whole number, most significant first, with
/// no leading zeroes (a lone zero for zero).
pub open spec fn spec_digits(n: nat) -> Seq<char>
    decreases n,
{
    if n < 10 {
        seq![spec_digit(n)]
    } else {
        spec_digits(n / 10).push(spec_digit(n % 10))
    }
}

/// The symbol printed after the value of each unit.
pub open spec fn spec_symbol(units: TemperatureUnits) -> Seq<char> {
    match units {
        TemperatureUnits::Celsius => seq!['°', 'C'],
        TemperatureUnits::Farenheit => seq!['°', 'F'],
        TemperatureUnits::Kelvin => seq!['K'],
    }
}

/// The full rendering of a presented value: an optional minus sign, the
/// whole part, a point, exactly two fraction digits, and the unit
/// symbol.
pub open spec fn spec_rendered(
    neg: bool,
    whole: nat,
    hundredths: nat,
    units: TemperatureUnits,
) -> Seq<char> {
    (if neg {
        seq!['-']
    } else {
        Seq::<char>::empty()
    }) + spec_digits(whole) + seq!['.'] + seq![
        spec_digit(hundredths / 10),
        spec_digit(hundredths % 10),
    ] + spec_symbol(units)
}

/// The one-character string of a decimal digit.
fn digit_str(d: u64) -> (s: &'static str)
    requires
        d < 10,
    ensures
        s@ == seq![spec_digit(d as nat)],
{
    proof {
        reveal_strlit("0");
        reveal_strlit("1");
        reveal_strlit("2");
        reveal_strlit("3");
        reveal_strlit("4");
        reveal_strlit("5");
        reveal_strlit("6");
        reveal_strlit("7");
        reveal_strlit("8");
        reveal_strlit("9");
        assert("0"@ =~= seq!['0']);
        assert("1"@ =~= seq!['1']);
        assert("2"@ =~= seq!['2']);
        assert("3"@ =~= seq!['3']);
        assert("4"@ =~= seq!['4']);
        assert("5"@ =~= seq!['5']);
        assert("6"@ =~= seq!['6']);
        assert("7"@ =~= seq!['7']);
        assert("8"@ =~= seq!['8']);
        assert("9"@ =~= seq!['9']);
    }
    match d {
        0 => "0",
        1 => "1",
        2 => "2",
        3 => "3",
        4 => "4",
        5 => "5",
        6 => "6",
        7 => "7",
        8 => "8",
        _ => "9",
    }
}

/// The decimal digits of a whole number as a string.
pub fn decimal_string(n: u64) -> (s: String)
    ensures
        s@ == spec_digits(n as nat),
    decreases n,
{
    let d = digit_str(n % 10);
    if n < 10 {
        d.to_owned()
    } else {
        let mut s = decimal_string(n / 10);
        s.append(d);
        proof {
            assert(s@ =~= spec_digits(n as nat));
        }
        s
    }
}

/// The symbol of a unit.
pub fn unit_symbol(units: TemperatureUnits) -> (s: &'static str)
    ensures
        s@ == spec_symbol(units),
{
    proof {
        reveal_strlit("°C");
        reveal_strlit("°F");
        reveal_strlit("K");
        assert("°C"@ =~= seq!['°', 'C']);
        assert("°F"@ =~= seq!['°', 'F']);
        assert("K"@ =~= seq!['K']);
    }
    match units {
        TemperatureUnits::Celsius => "°C",
        TemperatureUnits::Farenheit => "°F",
        TemperatureUnits::Kelvin => "K",
    }
}

/// Render a presented value given as a sign and a magnitude in
/// hundredths: two decimal places followed by the unit symbol.
pub fn format_value(neg: bool, whole: u64, hundredths: u64, units: TemperatureUnits) -> (s: String)
    requires
        hundredths < 100,
    ensures
        s@ == spec_rendered(neg, whole as nat, hundredths as nat, units),
{
    let mut s = String::new();
    if neg {
        proof {
            reveal_strlit("-");
            assert("-"@ =~= seq!['-']);
        }
        s.append("-");
    }
    let digits = decimal_string(whole);
    s.append(digits.as_str());
    proof {
        reveal_strlit(".");
        assert("."@ =~= seq!['.']);
    }
    s.append(".");
    s.append(digit_str(hundredths / 10));
    s.append(digit_str(hundredths % 10));
    s.append(unit_symbol(units));
    proof {
        assert(s@ =~= spec_rendered(neg, whole as nat, hundredths as nat, units));
    }
    s
}

} // verus!
