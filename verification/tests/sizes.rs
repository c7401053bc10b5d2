//! Sizes shown and typed, held against double-precision arithmetic.

use mac_file_analyzer::formatter::human_size;
use mac_file_analyzer::numeral::Numeral;
use mac_file_analyzer::rounding::{divide_half_even, nearest_double_of};
use mac_file_analyzer::size_arg::{parse_min_size, parse_size_parts};

fn by_float(bytes: u64) -> String {
    let kib = 1024u64;
    let mib = 1024 * kib;
    let gib = 1024 * mib;
    let tib = 1024 * gib;
    if bytes >= tib {
        format!("{:.1} TiB", bytes as f64 / tib as f64)
    } else if bytes >= gib {
        format!("{:.1} GiB", bytes as f64 / gib as f64)
    } else if bytes >= mib {
        format!("{:.1} MiB", bytes as f64 / mib as f64)
    } else if bytes >= kib {
        format!("{:.1} KiB", bytes as f64 / kib as f64)
    } else {
        format!("{} B", bytes)
    }
}

/// Numbers that look random, the same ones every time.
fn scattered(n: usize) -> Vec<u64> {
    let mut x: u64 = 0x9e37_79b9_7f4a_7c15;
    let mut out = Vec::new();
    for i in 0..n {
        x ^= x << 13;
        x ^= x >> 7;
        x ^= x << 17;
        out.push(x >> (i % 64));
    }
    out
}

#[test]
fn sizes_are_shown_as_floats_would_be() {
    let mut samples = scattered(4000);
    for shift in 0..64 {
        let p = 1u64 << shift;
        samples.extend_from_slice(&[p - 1, p, p.wrapping_add(1), p + p / 20, p + p / 4, p + p / 2]);
    }
    samples.push(u64::MAX);
    for bytes in samples {
        assert_eq!(human_size(bytes), by_float(bytes), "{}", bytes);
    }
}

#[test]
fn halves_of_a_tenth_go_to_the_even_digit() {
    assert_eq!(human_size(1024 + 256), "1.2 KiB");
    assert_eq!(human_size(1024 + 768), "1.8 KiB");
    assert_eq!(human_size(1024 * 1024 - 1), "1024.0 KiB");
    assert_eq!(human_size(u64::MAX), "16777216.0 TiB");
}

#[test]
fn division_rounds_halves_to_even() {
    assert_eq!(divide_half_even(5, 2), 2);
    assert_eq!(divide_half_even(7, 2), 4);
    assert_eq!(divide_half_even(8, 3), 3);
    assert_eq!(divide_half_even(7, 3), 2);
    assert_eq!(divide_half_even(9, 1), 9);
}

#[test]
fn large_numbers_round_as_doubles() {
    for n in scattered(4000) {
        assert_eq!(nearest_double_of(n), (n as f64) as u128, "{}", n);
    }
    assert_eq!(nearest_double_of(u64::MAX), 1 << 64);
    assert_eq!(nearest_double_of((1 << 53) + 1), 1 << 53);
    assert_eq!(nearest_double_of((1 << 53) + 3), (1 << 53) + 4);
}

fn by_doubles(s: &str) -> Result<u64, String> {
    let s = s.trim();
    let lower = s.to_lowercase();
    if ["nan", "inf", "infinity", "-inf", "-infinity", "+inf", "+infinity"].contains(&lower.as_str()) {
        return Err(format!("'{}' is not a valid number", s));
    }
    let split = s.find(|c: char| c.is_alphabetic() || c == ' ').unwrap_or(s.len());
    let num_str = s[..split].trim();
    let unit_str = s[split..].trim().to_uppercase();
    let num: f64 = num_str.parse().map_err(|_| format!("'{}' is not a valid number", num_str))?;
    if !num.is_finite() {
        return Err(format!("'{}' is not a valid number", num_str));
    }
    if num < 0.0 {
        return Err("size must be non-negative".to_string());
    }
    let multiplier: u64 = match unit_str.as_str() {
        "" | "B" => 1,
        "K" | "KB" | "KIB" => 1 << 10,
        "M" | "MB" | "MIB" => 1 << 20,
        "G" | "GB" | "GIB" => 1 << 30,
        "T" | "TB" | "TIB" => 1 << 40,
        other => return Err(format!("unknown unit '{}'", other)),
    };
    if exceeds_u64(num_str, multiplier) {
        return Err(format!("'{}' is too large (maximum is {} bytes)", s, u64::MAX));
    }
    Ok((num * multiplier as f64) as u64)
}

/// Whether the number times the multiplier is more than `u64::MAX`, in whole
/// numbers: the digits before the point and, of those behind it, 18 and whether
/// any others follow.
fn exceeds_u64(num: &str, multiplier: u64) -> bool {
    let digits = num.trim_start_matches(|c| c == '+' || c == '-');
    let (whole, fraction) = digits.split_once('.').unwrap_or((digits, ""));
    let whole = whole.trim_start_matches('0');
    if whole.len() > 20 {
        return true;
    }
    let whole: u128 = if whole.is_empty() { 0 } else { whole.parse().unwrap() };
    let scaled = whole * multiplier as u128;
    let max = u64::MAX as u128;
    if scaled > max {
        return true;
    }
    let unit = 1_000_000_000_000_000_000u128;
    let (near, far) = fraction.split_at(fraction.len().min(18));
    let near: u128 = format!("{:0<18}", near).parse().unwrap();
    let far = far.contains(|c| c != '0');
    // What the fraction adds, rounded down, and whether there is a rest.
    let added = near * multiplier as u128;
    let total = scaled + added / unit;
    let rest = added % unit != 0 || far;
    total > max || (total == max && rest)
}

#[test]
fn typed_sizes_are_read_as_floats_would_be() {
    let numbers = [
        "0", "-0", "+0", "-0.0", "1", "+7", "007", "512", "1.5", "0.1", "0.3", "2.675", ".5", "5.", "+.5", ".",
        "", "+", "-", "-1", "-.5", "1.2.3", "1,5", "1_000", "٣", "0.99999999999999999999",
        "0.9999999999999999444888487687421760603063", "0.99999999999999994", "9007199254740993",
        "9007199254740992.5", "9007199254740993.0000001", "18446744073709551615", "18446744073709551616",
        "18446744073709549568", "18446744073709550591.999", "18446744073709550592", "18446744073709553664",
        "18446744073709553665", "16777215.99999999999999", "16777216", "0.00000000000000000001",
        "123456789.987654321", "340282366920938463463374607431768211456", "4503599627370496.5",
        "4503599627370497.5", "2251799813685248.25", "0.0009765625", "0.00097656249999999999999",
    ];
    let units = ["", "B", "b", "K", "kb", "KiB", "M", "mB", "MIB", "G", "gb", "GiB", "T", "tB", "tib", "Q", "KB B", "ſ", "Kıb"];
    for n in numbers {
        for u in units {
            for text in [format!("{}{}", n, u), format!(" {} {}\t", n, u), format!("{}\u{a0}{}", n, u)] {
                assert_eq!(parse_min_size(&text), by_doubles(&text), "{:?}", text);
            }
        }
    }
}

#[test]
fn sizes_up_to_the_largest_are_accepted_and_no_more() {
    assert_eq!(parse_min_size("18446744073709551615"), Ok(u64::MAX));
    assert_eq!(parse_min_size("18446744073709551615.000"), Ok(u64::MAX));
    assert_eq!(parse_min_size("16777215.999999T"), Ok(18446744073708451840));
    for s in [
        "18446744073709551616",
        "18446744073709551615.000000000000000000001",
        "16777216TB",
        "16777216.0TiB",
        "17179869184G",
        "18014398509481984K",
    ] {
        let message = format!("'{}' is too large (maximum is 18446744073709551615 bytes)", s);
        assert_eq!(parse_min_size(s), Err(message));
    }
}

#[test]
fn whole_sizes_past_the_gaps_of_double_precision_are_exact() {
    assert_eq!(parse_min_size("9007199254740992"), Ok(1 << 53));
    assert_eq!(parse_min_size("9007199254740992K"), Ok(1 << 63));
    assert_eq!(parse_min_size("9007199254740991 kib"), Ok(((1 << 53) - 1) << 10));
    assert_eq!(parse_min_size("16777215TB"), Ok(16777215 << 40));
    assert_eq!(parse_min_size("500 "), Ok(500));
}

#[test]
fn case_and_outer_blanks_do_not_matter() {
    for s in ["10MB", "1.5 GiB", "2t", "7", "10QQ", "nan", "-1mb", "abc", "", "16777216TB", "1Kıb", "1kıB", "2ſ", "3\u{a0}mb", "ΑΣ"] {
        let bytes = parse_min_size(s).ok();
        assert_eq!(parse_min_size(&s.to_ascii_uppercase()).ok(), bytes);
        assert_eq!(parse_min_size(&s.to_ascii_lowercase()).ok(), bytes);
        assert_eq!(parse_min_size(&format!("  {}\t ", s)), parse_min_size(s));
    }
}

#[test]
fn special_words_are_no_numbers() {
    for s in ["nan", "NaN", "INF", "Infinity", "+inf", "-Infinity", " inf ", "infinit", "nanK", "in"] {
        assert_eq!(parse_min_size(s), by_doubles(s), "{:?}", s);
    }
}

#[test]
fn numbers_at_the_edges_of_double_precision() {
    let mut digits = String::from("1");
    for _ in 0..310 {
        digits.push('0');
        assert_eq!(parse_min_size(&digits), by_doubles(&digits));
    }
    // The largest double, what still rounds to it, and what is infinite.
    let largest = "179769313486231570814527423731704356798070567525844996598917476803157260780028538760589558632766878171540458953514382464234321326889464182768467546703537516986049910576551282076245490090389328944075868508455133942304583236903222948165808559332123347747970";
    for tail in ["", "0", "123", "4567"] {
        let s = format!("{}{}", largest, tail);
        assert_eq!(parse_min_size(&s), by_doubles(&s));
    }
    let limit = format!("{:.0}", f64::MAX);
    assert_eq!(parse_min_size(&limit), by_doubles(&limit));
    let mut tiny = String::from("-0.");
    for _ in 0..330 {
        tiny.push('0');
        let s = format!("{}1", tiny);
        assert_eq!(parse_min_size(&s), by_doubles(&s), "{:?}", s);
        let s = format!("{}49406564584124654417656879286822137236505980e", tiny);
        assert_eq!(parse_min_size(&s).is_err(), by_doubles(&s).is_err());
    }
    // Half of the smallest double vanishes; a little more does not.
    let half = format!("-{:.1075}", f64::from_bits(1) / 2.0);
    assert_eq!(parse_min_size(&half), by_doubles(&half));
    let smallest = format!("-{:.1074}", f64::from_bits(1));
    assert_eq!(parse_min_size(&smallest), Err("size must be non-negative".to_string()));
    assert_eq!(parse_min_size(&smallest), by_doubles(&smallest));
}

#[test]
fn every_error_has_its_message() {
    let err = |s: &str| parse_min_size(s).unwrap_err();
    assert_eq!(err("nan"), "'nan' is not a valid number");
    assert_eq!(err("1.2.3K"), "'1.2.3' is not a valid number");
    assert_eq!(err("abc"), "'' is not a valid number");
    assert_eq!(err("-1MB"), "size must be non-negative");
    assert_eq!(err("10qq"), "unknown unit 'QQ'");
    assert_eq!(err("99999999TB"), "'99999999TB' is too large (maximum is 18446744073709551615 bytes)");
}

#[test]
fn whole_sizes_in_every_unit_are_exact() {
    assert_eq!(parse_min_size("500"), Ok(500));
    assert_eq!(parse_min_size("10KB"), Ok(10 * 1024));
    assert_eq!(parse_min_size("10   kib"), Ok(10 * 1024));
    assert_eq!(parse_min_size("100MiB"), Ok(100 * 1024 * 1024));
    assert_eq!(parse_min_size("1.5GiB"), Ok(1610612736));
    assert_eq!(parse_min_size("2TB"), Ok(2 * 1099511627776));
}

#[test]
fn parts_of_a_size_are_read_in_order() {
    assert_eq!(parse_size_parts("w", "l", "3", "K"), Ok(3072));
    assert_eq!(parse_size_parts("w", "inf", "x", "?").unwrap_err(), "'w' is not a valid number");
    assert_eq!(parse_size_parts("w", "l", "x", "?").unwrap_err(), "'x' is not a valid number");
    assert_eq!(parse_size_parts("w", "l", "-1", "?").unwrap_err(), "size must be non-negative");
    assert_eq!(parse_size_parts("w", "l", "1", "?").unwrap_err(), "unknown unit '?'");
    assert_eq!(
        parse_size_parts("w", "l", "16777216", "T").unwrap_err(),
        "'w' is too large (maximum is 18446744073709551615 bytes)"
    );
}

#[test]
fn numerals_round_to_doubles() {
    let n = |whole: &[u8], fraction: &[u8]| Numeral { whole: whole.to_vec(), fraction: fraction.to_vec() };
    assert_eq!(n(&[1], &[5]).scaled_whole(10), Some(1536));
    assert_eq!(n(&[], &[9, 9, 9]).scaled_whole(0), Some(0));
    assert_eq!(n(&[], &[9; 30]).scaled_whole(0), Some(1));
    assert_eq!(n(&[1, 6, 7, 7, 7, 2, 1, 6], &[]).scaled_whole(40), None);
    assert!(n(&[9; 309], &[]).overflows());
    assert!(!n(&[9; 308], &[]).overflows());
    assert!(n(&[0], &[0, 0]).vanishes());
    assert!(n(&[0], &[0; 330]).vanishes());
    assert!(!n(&[0], &[1]).vanishes());
    assert!(!n(&[1], &[]).vanishes());
}
