use datarunner_core::status::{parse_stock_label, status_label, stock_levels};

#[test]
fn maps_confirmed_levels() {
    assert_eq!(parse_stock_label("out of stock"), Some(("out of stock", 1)));
    assert_eq!(parse_stock_label("Low Inventory"), Some(("low inventory", 3)));
    assert_eq!(parse_stock_label("MEDIUM INVENTORY"), Some(("medium inventory", 4)));
    assert_eq!(parse_stock_label("High Inventory"), Some(("high inventory", 5)));
    assert_eq!(parse_stock_label("Max Inventory"), Some(("max inventory", 7)));
}

#[test]
fn very_qualifiers_take_precedence() {
    assert_eq!(parse_stock_label("Very Low Inventory"), Some(("very low inventory", 2)));
    assert_eq!(parse_stock_label("Very High Inventory"), Some(("very high inventory", 6)));
}

#[test]
fn handles_noise_and_unknown() {
    assert_eq!(parse_stock_label("maxinventory"), Some(("max inventory", 7)));
    assert_eq!(parse_stock_label("cannot sell"), Some(("out of stock", 1)));
    assert_eq!(parse_stock_label("garbage"), None);
    assert_eq!(parse_stock_label(""), None);
}

#[test]
fn labels_cover_the_scale() {
    let levels = stock_levels();
    assert_eq!(levels.len(), 7);
    for (label, status) in levels {
        assert_eq!(status_label(status), label);
        assert_eq!(parse_stock_label(label), Some((label, status)));
    }
    assert_eq!(status_label(0), "?");
    assert_eq!(status_label(8), "?");
}

#[test]
fn sold_out_counts_as_out_of_stock() {
    assert_eq!(parse_stock_label("SOLD OUT"), Some(("out of stock", 1)));
    assert_eq!(parse_stock_label("0UT OF STOCK"), Some(("out of stock", 1)));
}
