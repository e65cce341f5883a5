use datarunner_core::pricing::{
    amount_plain, amount_with_suffix, find_price, find_quantity, price_from, quantity_from,
};

fn price(s: &str) -> Option<u32> {
    find_price(s).map(|p| p.value)
}

#[test]
fn parses_k_prices_from_logs() {
    assert_eq!(price("¤6.561K/SCU"), Some(6561));
    assert_eq!(price("¤23.556K/SCU"), Some(23556));
    assert_eq!(price("¤122.85K/SCU"), Some(122850));
    assert_eq!(price("¤36.26K/SCU"), Some(36260));
    assert_eq!(price("¤4.494K/SCU"), Some(4494));
    assert_eq!(price("¤35K/SCU"), Some(35000));
}

#[test]
fn tolerates_currency_glyphs_spacing_and_dropped_slash() {
    assert_eq!(price("¤ 6.561 K /SCU"), Some(6561));
    assert_eq!(price("£122.85K SCU"), Some(122850));
    assert_eq!(price("|4.494K/SCU"), Some(4494));
}

#[test]
fn parses_comma_thousands_and_misread_periods() {
    assert_eq!(price("¤6,561/SCU"), Some(6561));
    assert_eq!(price("¤6.561/SCU"), Some(6561));
    assert_eq!(price("¤122,850/SCU"), Some(122850));
    assert_eq!(price("¤36.260/SCU"), Some(36260));
    assert_eq!(price("¤67,000/SCU"), Some(67000));
}

#[test]
fn parses_million_prices() {
    assert_eq!(price("¤1.22M/SCU"), Some(1_220_000));
    assert_eq!(price("¤2M/SCU"), Some(2_000_000));
}

#[test]
fn parses_quantities_with_separators() {
    assert_eq!(find_quantity("Max Inventory 1,050 SCU"), Some(1050));
    assert_eq!(find_quantity("525 SCU"), Some(525));
    assert_eq!(find_quantity("6000 SCU"), Some(6000));
    assert_eq!(find_quantity("6 SCU"), Some(6));
}

#[test]
fn quantity_ignores_price_numbers() {
    assert_eq!(find_quantity("¤6.561K/SCU"), None);
    assert_eq!(find_quantity("525 SCU ¤6.561K/SCU"), Some(525));
}

#[test]
fn no_false_positives() {
    assert_eq!(find_price("AVAILABLE CARGO SIZE (SCU)"), None);
    assert_eq!(find_price("SHOP QUANTITY"), None);
    assert_eq!(find_quantity("SHOP QUANTITY"), None);
}

#[test]
fn the_matched_text_is_kept() {
    let p = find_price("at ¤6.561K/SCU today").unwrap();
    assert_eq!(p.value, 6561);
    assert_eq!(p.matched, "6.561K/SCU");
}

#[test]
fn amounts_round_and_are_bounded() {
    assert_eq!(amount_with_suffix("1.0004", 'k'), Some(1000));
    assert_eq!(amount_with_suffix("1.0006", 'K'), Some(1001));
    assert_eq!(amount_with_suffix("1,234", 'm'), Some(1_234_000_000));
    assert_eq!(amount_with_suffix("5000", 'm'), None);
    assert_eq!(amount_with_suffix("1.2.3", 'k'), None);
    assert_eq!(amount_with_suffix("", 'k'), None);
    assert_eq!(amount_with_suffix("7.4", 'x'), Some(7));
    assert_eq!(amount_plain("4,294,967,295"), Some(u32::MAX));
    assert_eq!(amount_plain("4294967296"), None);
    assert_eq!(amount_plain("abc"), None);
}

#[test]
fn captured_groups_decide_the_price() {
    let text = |s: &str| Some(s.to_string());
    let suffixed = Some(vec![text(" 6.5K/SCU"), text("6.5"), text("K")]);
    let p = price_from(&suffixed).unwrap();
    assert_eq!((p.value, p.matched.as_str()), (6500, "6.5K/SCU"));
    let slash = Some(vec![text("1,220,000/SCU"), None, None, text("1,220,000")]);
    assert_eq!(price_from(&slash).map(|p| p.value), Some(1_220_000));
    let large = Some(vec![text("9999999M/SCU"), text("9999999"), text("M")]);
    assert_eq!(price_from(&large), None);
    assert_eq!(price_from(&None), None);
    assert_eq!(quantity_from(&Some(vec![text("12 SCU"), text("12")])), Some(12));
    assert_eq!(quantity_from(&None), None);
}

#[test]
fn the_first_plausible_price_counts() {
    assert_eq!(price("¤6,561/SCU ¤2K/SCU"), Some(6561));
    assert_eq!(price("¤2K/SCU ¤6,561/SCU"), Some(2000));
    // One that is out of range is passed over.
    assert_eq!(price("¤9999999M/SCU ¤99999999999/SCU ¤7/SCU"), Some(7));
    assert_eq!(price("¤9999999M/SCU"), None);
}

#[test]
fn all_separators_are_stripped() {
    assert_eq!(price("¤1,220,000/SCU"), Some(1_220_000));
    assert_eq!(price("¤1.220,000/SCU"), Some(1_220_000));
    assert_eq!(price("¤1.220.000/SCU"), Some(1_220_000));
    assert_eq!(price("¤1,234.5K/SCU"), Some(1_234_500));
    assert_eq!(find_quantity("¤1,220,000/SCU 12 SCU"), Some(12));
    assert_eq!(find_quantity("1,220,000 SCU"), Some(1_220_000));
}

#[test]
fn a_suffixed_number_has_one_point() {
    let p = find_price("¤1.234.567K/SCU").unwrap();
    assert_eq!((p.value, p.matched.as_str()), (234_567, "234.567K/SCU"));
    assert_eq!(price("¤9.1.22M/SCU"), Some(1_220_000));
}

/// The rule in floating point.
fn in_double_precision(num: &str, factor: f64) -> Option<u32> {
    let scaled = (num.parse::<f64>().ok()? * factor).round();
    if scaled > u32::MAX as f64 {
        None
    } else {
        Some(scaled as u32)
    }
}

#[test]
fn halves_go_the_way_of_double_precision() {
    assert_eq!(amount_with_suffix("2.0035", 'k'), Some(2003));
    assert_eq!(amount_with_suffix("2.0045", 'k'), in_double_precision("2.0045", 1e3));
    for whole in [0u32, 1, 2, 7, 16, 64, 999, 65_535, 4_294_967] {
        for places in (5..10_000u32).step_by(10) {
            let num = format!("{whole}.{places:04}");
            assert_eq!(amount_with_suffix(&num, 'k'), in_double_precision(&num, 1e3), "{num}");
        }
        for places in (0..1000u32).map(|i| i * 9_973 + 5) {
            let num = format!("{whole}.{places:07}");
            assert_eq!(amount_with_suffix(&num, 'm'), in_double_precision(&num, 1e6), "{num}");
            assert_eq!(amount_with_suffix(&num, 'k'), in_double_precision(&num, 1e3), "{num}");
            assert_eq!(amount_with_suffix(&num, ' '), in_double_precision(&num, 1.0), "{num}");
        }
    }
}

#[test]
fn near_halves_go_the_way_of_double_precision() {
    for num in [
        "2.00349999999999999999999999999999999999999999999999",
        "2.00350000000000000000000000000000000000000000000001",
        "2.0034999999999998",
        "2.0035000000000003",
        "0.0004999999999999999999999",
        "0.0005",
        "0.0000000000000000000000000000000000000000000000005",
        "4294967.2955",
        "4294967.2954999999999",
        ".5",
        "5.",
        "0000000000000000000000000001.0005",
    ] {
        for (suffix, factor) in [('k', 1e3), ('m', 1e6), ('x', 1.0)] {
            let expected = in_double_precision(num, factor);
            assert_eq!(amount_with_suffix(num, suffix), expected, "{num}{suffix}");
        }
    }
}

#[test]
fn prices_are_blanked_out_of_quantities() {
    // Without blanking, the number of the price would be taken.
    assert_eq!(find_quantity("¤7/SCU"), None);
    assert_eq!(find_quantity("¤7/SCU 12 SCU"), Some(12));
}
