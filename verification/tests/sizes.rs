use huggingfacedownloader::sizes::{
    format_bytes, parse_size_to_bytes, scale_to_bytes, size_number, split_size,
};

fn read(input: &str) -> Result<u64, String> {
    let number = size_number(input);
    let parsed = number.parse::<f64>().map(|v| v.to_bits()).map_err(|e| e.to_string());
    parse_size_to_bytes(input, parsed)
}

fn shown(bytes: i64) -> String {
    let units = ["B", "KB", "MB", "GB", "TB", "PB"];
    let mut size = bytes as f64;
    let mut unit = 0;
    while size >= 1024.0 && unit < units.len() - 1 {
        size /= 1024.0;
        unit += 1;
    }
    if unit == 0 {
        format!("{} {}", size as i64, units[unit])
    } else {
        format!("{:.2} {}", size, units[unit])
    }
}

#[test]
fn units_are_powers_of_1024() {
    assert_eq!(read("1"), Ok(1));
    assert_eq!(read("1B"), Ok(1));
    assert_eq!(read("1KB"), Ok(1024));
    assert_eq!(read("100MB"), Ok(104857600));
    assert_eq!(read("2GB"), Ok(2147483648));
    assert_eq!(read("1TB"), Ok(1099511627776));
    assert_eq!(read("1PB"), Ok(1125899906842624));
}

#[test]
fn blanks_and_letter_case_do_not_matter() {
    assert_eq!(read("  1.5 kb "), Ok(1536));
    assert_eq!(read("\u{a0}10 mB\n"), Ok(10485760));
    assert_eq!(size_number("  1.5 kb "), "1.5");
    for size in ["3TB", "3tb", " 3Tb", "3 tB\t", "\u{2003}3 tb\u{3000}"] {
        assert_eq!(read(size), Ok(3298534883328));
    }
}

#[test]
fn whole_numbers_with_a_unit_are_exact_or_saturated() {
    for n in [0u64, 1, 7, 999, 1000, 123456, 9007199254740992] {
        for (power, unit) in ["B", "KB", "MB", "GB", "TB", "PB"].iter().enumerate() {
            let expected = n.saturating_mul(1024_u64.pow(power as u32));
            assert_eq!(read(&format!("{}{}", n, unit)), Ok(expected));
            assert_eq!(read(&format!("{} {}", n, unit)), Ok(expected));
        }
        assert_eq!(read(&format!("{}", n)), Ok(n));
    }
}

#[test]
fn written_sizes_read_back() {
    for power in 0..6 {
        let top: i64 = if power < 5 { 1024 } else { 8192 };
        for n in 1..top {
            let bytes = n * 1024_i64.pow(power);
            assert_eq!(read(&format_bytes(bytes)), Ok(bytes as u64));
        }
    }
    assert_eq!(read(&format_bytes(0)), Ok(0));
}

#[test]
fn the_largest_unit_counts_where_it_first_occurs() {
    assert_eq!(split_size("1KB2MB"), ("1KB2".to_string(), 1048576));
    assert_eq!(split_size("3MB4MB"), ("3".to_string(), 1048576));
    assert_eq!(split_size("12"), ("12".to_string(), 1));
    assert_eq!(split_size("MB"), ("".to_string(), 1048576));
}

#[test]
fn fractions_are_rounded_halves_upwards() {
    assert_eq!(read("0.5"), Ok(1));
    assert_eq!(read("0.49"), Ok(0));
    assert_eq!(read("2.5"), Ok(3));
    assert_eq!(read("0.1MB"), Ok(104858));
    assert_eq!(read("1e3"), Ok(1000));
}

#[test]
fn results_stay_between_zero_and_the_largest_number() {
    assert_eq!(read("-5MB"), Ok(0));
    assert_eq!(read("1e300"), Ok(u64::MAX));
    assert_eq!(read("inf"), Ok(u64::MAX));
    assert_eq!(read("-inf"), Ok(0));
    assert_eq!(read("nan"), Ok(0));
    assert_eq!(read("20000PB"), Ok(u64::MAX));
}

#[test]
fn a_number_that_cannot_be_read_is_an_error() {
    assert_eq!(
        read("abc"),
        Err("Failed to parse number: invalid float literal".to_string())
    );
    assert_eq!(
        read(""),
        Err("Failed to parse number: cannot parse float from empty string".to_string())
    );
    assert_eq!(
        read("MB"),
        Err("Failed to parse number: cannot parse float from empty string".to_string())
    );
}

#[test]
fn scaling_agrees_with_floating_point() {
    let values = [
        0.0, -0.0, 0.5, 1.5, 2.5, 0.1, 1.0 / 3.0, 123456.789, 9007199254740993.0, 1e15, 1e19,
        1.8446744073709552e19, 1e-300, 5e-324, 2.2250738585072014e-308, f64::MAX, f64::MIN,
        f64::NAN, f64::INFINITY, f64::NEG_INFINITY, 4503599627370497.5, 0.49999999999999994,
    ];
    for v in values {
        for k in 0..6 {
            let multiplier = 1024_u64.pow(k);
            let expected = (v * multiplier as f64).round() as u64;
            assert_eq!(scale_to_bytes(v.to_bits(), multiplier), expected, "{} {}", v, k);
        }
    }
    let mut bits: u64 = 0x1234_5678_9abc_def1;
    for _ in 0..20000 {
        bits = bits.wrapping_mul(6364136223846793005).wrapping_add(1442695040888963407);
        let near = 0x3fe0_0000_0000_0000 + (bits >> 6) % 0x0400_0000_0000_0000;
        let v = f64::from_bits(near);
        for k in [0, 1, 5] {
            let multiplier = 1024_u64.pow(k);
            let expected = (v * multiplier as f64).round() as u64;
            assert_eq!(scale_to_bytes(near, multiplier), expected);
        }
    }
}

#[test]
fn sizes_are_written_for_people() {
    assert_eq!(format_bytes(0), "0 B");
    assert_eq!(format_bytes(1023), "1023 B");
    assert_eq!(format_bytes(1024), "1.00 KB");
    assert_eq!(format_bytes(1536), "1.50 KB");
    assert_eq!(format_bytes(104857600), "100.00 MB");
    assert_eq!(format_bytes(-5), "-5 B");
}

#[test]
fn written_sizes_agree_with_floating_point() {
    let mut seed: u64 = 42;
    for b in 0i64..5000 {
        assert_eq!(format_bytes(b), shown(b));
        assert_eq!(format_bytes(-b), shown(-b));
    }
    for _ in 0..20000 {
        seed = seed.wrapping_mul(6364136223846793005).wrapping_add(1442695040888963407);
        let b = (seed >> (1 + seed % 60)) as i64;
        assert_eq!(format_bytes(b), shown(b));
        assert_eq!(format_bytes(-b), shown(-b));
    }
    for b in [i64::MAX, i64::MIN, 9007199254740993, 9007199254740995, 1 << 53, (1 << 60) - 1] {
        assert_eq!(format_bytes(b), shown(b));
    }
}
