use kube_resources::{
    capacity_quantity, cpu_quantity, parse_capacity_requests, parse_cpu_requests, Capacity,
    CapacityUnit, Mebibytes, ParseError,
};

fn cpu(text: &str) -> Result<u32, ParseError> {
    parse_cpu_requests(text.to_string())
}

fn capacity(text: &str) -> Result<Capacity, ParseError> {
    parse_capacity_requests(text.to_string())
}

/// The whole millionths that a record holds of the quantity.
fn micros(text: &str) -> u64 {
    capacity(text).unwrap().to_mebibytes().unwrap().micros
}

/// The amount in millionths of a mebibyte as its numerator and denominator.
fn fraction(amount: &Capacity) -> (u128, u128) {
    let (micros, per) = amount.unit.scale();
    let mantissa = amount
        .digits
        .iter()
        .fold(0u128, |value, digit| value * 10 + *digit as u128);
    let up = if amount.exponent > 0 { amount.exponent as u32 } else { 0 };
    let down = if amount.exponent < 0 { (-amount.exponent) as u32 } else { 0 };
    (
        mantissa * 10u128.pow(up) * micros as u128,
        10u128.pow(down) * per as u128,
    )
}

/// The amount of the quantity in mebibytes.
fn mebibytes(text: &str) -> f64 {
    let amount = capacity(text).unwrap();
    let (micros, per) = amount.unit.scale();
    let mantissa = amount
        .digits
        .iter()
        .fold(0.0, |value, digit| value * 10.0 + *digit as f64);
    if mantissa < 1e15 && amount.exponent.abs() < 10 {
        let (numerator, denominator) = fraction(&amount);
        numerator as f64 / (denominator as f64 * 1_000_000.0)
    } else {
        mantissa * 10f64.powi(amount.exponent as i32) * (micros as f64 / 1_000_000.0) / per as f64
    }
}

fn amount(digits: &[u8], exponent: i128, unit: CapacityUnit) -> Capacity {
    Capacity {
        digits: digits.to_vec(),
        exponent,
        unit,
    }
}

#[test]
fn cpu_in_milli_cores_is_taken_as_it_is() {
    assert_eq!(cpu("500m"), Ok(500));
    assert_eq!(cpu("0m"), Ok(0));
    assert_eq!(cpu("4294967295m"), Ok(u32::MAX));
}

#[test]
fn cpu_in_nano_cores_is_divided_by_a_million() {
    assert_eq!(cpu("250000000n"), Ok(250));
    assert_eq!(cpu("999999n"), Ok(0));
    assert_eq!(cpu("1999999n"), Ok(1));
    assert_eq!(cpu("999999999n"), Ok(999));
}

#[test]
fn cpu_in_cores_is_multiplied_by_a_thousand() {
    assert_eq!(cpu("2"), Ok(2000));
    assert_eq!(cpu("0"), Ok(0));
    assert_eq!(cpu("4294967"), Ok(4_294_967_000));
}

#[test]
fn cpu_with_a_point_loses_the_point_and_counts_hundredfold() {
    assert_eq!(cpu("1.5"), Ok(1500));
    assert_eq!(cpu("0.5"), Ok(500));
    assert_eq!(cpu("2.0"), Ok(2000));
    assert_eq!(cpu("1.25"), Ok(12500));
    assert_eq!(cpu("1.2.3"), Ok(12300));
}

#[test]
fn cpu_point_is_looked_for_before_any_unit() {
    assert_eq!(cpu("1.5m"), Err(ParseError::Malformed));
    assert_eq!(cpu("1.5n"), Err(ParseError::Malformed));
    assert_eq!(cpu("."), Err(ParseError::Malformed));
}

#[test]
fn cpu_accepts_a_plus_sign() {
    assert_eq!(cpu("+2"), Ok(2000));
    assert_eq!(cpu("+500m"), Ok(500));
    assert_eq!(cpu("+"), Err(ParseError::Malformed));
    assert_eq!(cpu("++2"), Err(ParseError::Malformed));
}

#[test]
fn cpu_that_is_no_numeral_is_malformed() {
    assert_eq!(cpu(""), Err(ParseError::Malformed));
    assert_eq!(cpu("m"), Err(ParseError::Malformed));
    assert_eq!(cpu("n"), Err(ParseError::Malformed));
    assert_eq!(cpu("abc"), Err(ParseError::Malformed));
    assert_eq!(cpu("-5"), Err(ParseError::Malformed));
    assert_eq!(cpu("5mm"), Err(ParseError::Malformed));
    assert_eq!(cpu("5m3"), Err(ParseError::Malformed));
    assert_eq!(cpu("5 m"), Err(ParseError::Malformed));
    assert_eq!(cpu("５m"), Err(ParseError::Malformed));
}

#[test]
fn cpu_that_does_not_fit_is_out_of_range() {
    assert_eq!(cpu("4294967296m"), Err(ParseError::OutOfRange));
    assert_eq!(cpu("4294968"), Err(ParseError::OutOfRange));
    assert_eq!(cpu("42949672.96"), Err(ParseError::OutOfRange));
    assert_eq!(cpu("4294967295999999n"), Ok(u32::MAX));
    assert_eq!(cpu("4294967296000000n"), Err(ParseError::OutOfRange));
    assert_eq!(
        cpu("99999999999999999999999999999999999999999999999999m"),
        Err(ParseError::OutOfRange)
    );
}

#[test]
fn cpu_with_leading_zeros_is_read_in_full() {
    assert_eq!(
        cpu("00000000000000000000000000000000000000000000000000500m"),
        Ok(500)
    );
}

#[test]
fn cpu_quantity_is_read_back() {
    for millis in [0u32, 1, 9, 10, 250, 500, 1000, 123_456, u32::MAX] {
        assert_eq!(cpu(&cpu_quantity(millis)), Ok(millis));
    }
    assert_eq!(cpu_quantity(500), "500m");
    assert_eq!(cpu_quantity(0), "0m");
}

#[test]
fn binary_and_decimal_units_are_told_apart() {
    assert_eq!(mebibytes("1Mi"), 1.0);
    assert_eq!(mebibytes("1M"), 0.953674);
    assert_eq!(micros("1Mi"), 1_000_000);
    assert_eq!(micros("1M"), 953_674);
}

#[test]
fn records_hold_whole_millionths_of_binary_units() {
    assert_eq!(micros("1024Ki"), 1_000_000);
    assert_eq!(micros("1Ki"), 976);
    assert_eq!(micros("128Mi"), 128_000_000);
    assert_eq!(micros("1Gi"), 1_024_000_000);
    assert_eq!(micros("2Gi"), 2_048_000_000);
    assert_eq!(micros("1Ti"), 1_048_576_000_000);
}

#[test]
fn records_hold_whole_millionths_of_decimal_units() {
    assert_eq!(micros("1000k"), 953_674);
    assert_eq!(micros("1k"), 953);
    assert_eq!(micros("500M"), 476_837_000);
    assert_eq!(micros("1G"), 953_674_000);
    assert_eq!(micros("2T"), 1_907_348_000_000);
    assert_eq!(mebibytes("2T"), 1_907_348.0);
    assert_eq!(mebibytes("1G"), 953.674);
}

#[test]
fn records_hold_whole_millionths_of_bytes() {
    assert_eq!(micros("1048576"), 1_000_000);
    assert_eq!(micros("8589934592"), 8_192_000_000);
    assert_eq!(micros("1"), 0);
    assert_eq!(micros("1073741824m"), 1_000_000);
    assert_eq!(micros("1m"), 0);
}

#[test]
fn records_hold_whole_millionths_of_fractions() {
    assert_eq!(micros("1.5Gi"), 1_536_000_000);
    assert_eq!(micros("0.5Mi"), 500_000);
    assert_eq!(micros(".5Mi"), 500_000);
    assert_eq!(micros("2.Mi"), 2_000_000);
    assert_eq!(micros("0.0000001Mi"), 0);
    assert_eq!(micros("+1.25Mi"), 1_250_000);
}

#[test]
fn capacity_is_exact() {
    assert_eq!(capacity("1Ki"), Ok(amount(&[1], 0, CapacityUnit::Kibi)));
    assert_eq!(capacity("1.5Gi"), Ok(amount(&[1, 5], -1, CapacityUnit::Gibi)));
    assert_eq!(capacity("128"), Ok(amount(&[1, 2, 8], 0, CapacityUnit::Byte)));
    assert_eq!(capacity(".5m"), Ok(amount(&[5], -1, CapacityUnit::Milli)));
    assert_eq!(fraction(&capacity("1Ki").unwrap()), (1_000_000, 1024));
    assert_eq!(fraction(&capacity("1k").unwrap()), (953_674, 1000));
    assert_eq!(fraction(&capacity("1").unwrap()), (1_000_000, 1_048_576));
    assert_eq!(fraction(&capacity("0.25T").unwrap()), (25 * 953_674_000_000, 100));
    assert_eq!(mebibytes("1Ki"), 0.0009765625);
    assert_eq!(mebibytes("1k"), 0.000953674);
    assert_eq!(mebibytes("1"), 1.0 / 1_048_576.0);
    assert_eq!(mebibytes("1m"), 1.0 / 1_073_741_824.0);
}

#[test]
fn binary_units_scale_by_powers_of_two() {
    for (text, value) in [("1", 1.0), ("3", 3.0), ("0.5", 0.5), ("1.25", 1.25), ("4096", 4096.0)] {
        assert_eq!(mebibytes(&format!("{}Ki", text)), value / 1024.0);
        assert_eq!(mebibytes(&format!("{}Mi", text)), value);
        assert_eq!(mebibytes(&format!("{}Gi", text)), value * 1024.0);
        assert_eq!(mebibytes(&format!("{}Ti", text)), value * 1_048_576.0);
    }
}

#[test]
fn decimal_units_scale_by_the_factor() {
    for (text, value) in [("1", 1.0), ("7", 7.0), ("0.5", 0.5), ("123.456", 123.456)] {
        let near = |found: f64, expected: f64| (found - expected).abs() <= 1e-9 * expected;
        assert!(near(mebibytes(&format!("{}k", text)), 0.000953674 * value));
        assert!(near(mebibytes(&format!("{}M", text)), 0.953674 * value));
        assert!(near(mebibytes(&format!("{}G", text)), 953.674 * value));
        assert!(near(mebibytes(&format!("{}T", text)), 953_674.0 * value));
    }
}

#[test]
fn capacity_of_any_length() {
    assert_eq!(mebibytes("0000000000000000000000001Mi"), 1.0);
    assert_eq!(micros("0000000000000000000000001Mi"), 1_000_000);
    assert_eq!(micros("1.000000000000000000000000Mi"), 1_000_000);
    assert_eq!(micros("1.0000000000000000000000000000000000000000000000001Mi"), 1_000_000);
    assert_eq!(micros("0.9999999999999999999999999999999999999999999999999Mi"), 999_999);
    assert_eq!(micros("0.00000000000000000000000000000000000000000000000001Ti"), 0);
    let long = format!("{}1048576", "0".repeat(500));
    assert_eq!(micros(&long), 1_000_000);
    let large = capacity("1000000000000000000000000000000Ti").unwrap();
    assert_eq!(large.digits.len(), 31);
    assert_eq!(large.to_mebibytes(), None);
    let longer = capacity(&"9".repeat(1000)).unwrap();
    assert_eq!(longer.digits.len(), 1000);
    assert_eq!(longer.to_mebibytes(), None);
}

#[test]
fn capacity_keeps_the_order_of_the_numbers() {
    let numerals = ["0", "00", "1", "0000000000000000000000001", "2", "10", "0999", "1000",
        "999999999999999999999999", "1000000000000000000000000000000"];
    for unit in ["Ki", "Mi", "Gi", "Ti", "m", "k", "M", "G", "T", ""] {
        let mut before = 0.0;
        for numeral in numerals {
            let found = mebibytes(&format!("{}{}", numeral, unit));
            assert!(found.is_finite() && found >= before, "{}{}", numeral, unit);
            before = found;
        }
    }
}

#[test]
fn capacity_with_a_power_of_ten() {
    assert_eq!(capacity("129e6"), Ok(amount(&[1, 2, 9], 6, CapacityUnit::Byte)));
    assert_eq!(capacity("1.5e3"), Ok(amount(&[1, 5], 2, CapacityUnit::Byte)));
    assert_eq!(capacity("1E-3Mi"), Ok(amount(&[1], -3, CapacityUnit::Mebi)));
    assert_eq!(capacity("+2.50e+1Gi"), Ok(amount(&[2, 5, 0], -1, CapacityUnit::Gibi)));
    assert_eq!(micros("129e6"), 123_023_986);
    assert_eq!(micros("1e3"), 953);
    assert_eq!(micros("1.5e3"), 1430);
    assert_eq!(micros("1E3"), 953);
    assert_eq!(micros("1e+3"), 953);
    assert_eq!(micros("1e0Mi"), 1_000_000);
    assert_eq!(micros("1e-3Mi"), 1000);
    assert_eq!(micros("1e-7Mi"), 0);
    assert_eq!(micros("5e-1Ki"), 488);
    assert_eq!(mebibytes("1e3"), 1000.0 / 1_048_576.0);
}

#[test]
fn capacity_with_a_large_power_of_ten() {
    assert_eq!(micros("0e1000000000000000000"), 0);
    assert_eq!(micros("1e-1000000000000000000Ti"), 0);
    assert_eq!(
        capacity("1e1000000000000000000").unwrap().to_mebibytes(),
        None
    );
    assert_eq!(capacity("1e1000000000000000001"), Err(ParseError::OutOfRange));
    assert_eq!(capacity("1e-1000000000000000001"), Err(ParseError::OutOfRange));
    assert_eq!(
        capacity("0e99999999999999999999999999999999999999999999"),
        Err(ParseError::OutOfRange)
    );
    assert_eq!(micros("1e000000000000000000000000000000000000000003"), 953);
}

#[test]
fn capacity_that_is_no_numeral_is_malformed() {
    for text in [
        "", "Mi", ".Mi", "+Mi", "abcGi", "1.2.3Mi", "-1Mi", "5Mix", "5 Mi", "1MiMi", "1e", "e3",
        "1e3.5", "1e--3", "1ee3", "1e+", "1e-", ".e3", "1e3e4", "inf", "nan", "１Mi", "1e１",
        "x1e99999999999999999999999999",
    ] {
        assert_eq!(capacity(text), Err(ParseError::Malformed), "{:?}", text);
    }
}

#[test]
fn amounts_in_whole_millionths() {
    assert_eq!(
        amount(&[1], 0, CapacityUnit::Kibi).to_mebibytes(),
        Some(Mebibytes { micros: 976 })
    );
    assert_eq!(
        amount(&[], 0, CapacityUnit::Tebi).to_mebibytes(),
        Some(Mebibytes { micros: 0 })
    );
    assert_eq!(
        amount(&[0, 0], i128::MAX, CapacityUnit::Tera).to_mebibytes(),
        Some(Mebibytes { micros: 0 })
    );
    assert_eq!(amount(&[1], i128::MAX, CapacityUnit::Milli).to_mebibytes(), None);
    assert_eq!(
        amount(&[9; 40], i128::MIN, CapacityUnit::Tebi).to_mebibytes(),
        Some(Mebibytes { micros: 0 })
    );
    assert_eq!(
        amount(&[1, 2, 3, 4, 5], -7, CapacityUnit::Mebi).to_mebibytes(),
        Some(Mebibytes { micros: 1234 })
    );
    assert_eq!(
        amount(&[1, 2, 3, 4, 5], 2, CapacityUnit::Mega).to_mebibytes(),
        Some(Mebibytes { micros: 1_234_500 * 953_674 })
    );
    assert_eq!(
        amount(&[12, 255], -1, CapacityUnit::Mebi).to_mebibytes(),
        Some(Mebibytes { micros: 37_500_000 })
    );
    assert_eq!(
        capacity("18446744073709.551615Mi").unwrap().to_mebibytes(),
        Some(Mebibytes { micros: u64::MAX })
    );
    assert_eq!(
        capacity("18446744073709.551616Mi").unwrap().to_mebibytes(),
        None
    );
    assert_eq!(
        capacity("18446744073709.5516159999999999999999Mi")
            .unwrap()
            .to_mebibytes(),
        Some(Mebibytes { micros: u64::MAX })
    );
}

#[test]
fn capacity_quantity_is_read_back() {
    for micros in [
        0u64,
        1,
        10,
        976,
        500_000,
        953_674,
        1_000_000,
        1_000_001,
        1_250_000,
        512_000_000,
        8_192_000_000,
        u64::MAX,
    ] {
        let written = capacity_quantity(Mebibytes { micros });
        let read = capacity(&written).unwrap();
        let (numerator, denominator) = fraction(&read);
        assert_eq!(numerator, micros as u128 * denominator);
        assert_eq!(read.to_mebibytes(), Some(Mebibytes { micros }));
    }
}

#[test]
fn capacity_quantity_is_the_shortest_decimal() {
    assert_eq!(capacity_quantity(Mebibytes { micros: 0 }), "0Mi");
    assert_eq!(capacity_quantity(Mebibytes { micros: 1 }), "0.000001Mi");
    assert_eq!(capacity_quantity(Mebibytes { micros: 500_000 }), "0.5Mi");
    assert_eq!(capacity_quantity(Mebibytes { micros: 953_674 }), "0.953674Mi");
    assert_eq!(capacity_quantity(Mebibytes { micros: 512_000_000 }), "512Mi");
    assert_eq!(capacity_quantity(Mebibytes { micros: 1_050_000 }), "1.05Mi");
    assert_eq!(
        capacity_quantity(Mebibytes { micros: u64::MAX }),
        "18446744073709.551615Mi"
    );
}

#[test]
fn whole_mebibytes() {
    assert_eq!(Mebibytes::from_whole(512), Mebibytes { micros: 512_000_000 });
    assert_eq!(Mebibytes::from_whole(0), Mebibytes { micros: 0 });
    assert_eq!(
        Mebibytes::from_whole(u32::MAX),
        Mebibytes { micros: 4_294_967_295_000_000 }
    );
}

#[test]
fn unit_scales() {
    assert_eq!(CapacityUnit::Kibi.scale(), (1_000_000, 1024));
    assert_eq!(CapacityUnit::Mebi.scale(), (1_000_000, 1));
    assert_eq!(CapacityUnit::Gibi.scale(), (1_024_000_000, 1));
    assert_eq!(CapacityUnit::Tebi.scale(), (1_048_576_000_000, 1));
    assert_eq!(CapacityUnit::Milli.scale(), (1_000_000, 1_073_741_824));
    assert_eq!(CapacityUnit::Kilo.scale(), (953_674, 1000));
    assert_eq!(CapacityUnit::Mega.scale(), (953_674, 1));
    assert_eq!(CapacityUnit::Giga.scale(), (953_674_000, 1));
    assert_eq!(CapacityUnit::Tera.scale(), (953_674_000_000, 1));
    assert_eq!(CapacityUnit::Byte.scale(), (1_000_000, 1_048_576));
    assert_eq!(CapacityUnit::Kibi.suffix_len(), 2);
    assert_eq!(CapacityUnit::Tera.suffix_len(), 1);
    assert_eq!(CapacityUnit::Byte.suffix_len(), 0);
}
