use datarunner_core::model::{Commodity, Extraction, TerminalType};

#[test]
fn the_least_measured_confidence_counts() {
    let mut row = Commodity::new("Iron");
    assert_eq!(row.min_confidence(), 0);
    row.name_confidence = 90;
    assert_eq!(row.min_confidence(), 90);
    // A field that is absent or was not measured does not count.
    row.quantity_confidence = 10;
    row.price = Some(5);
    assert_eq!(row.min_confidence(), 90);
    row.quantity_scu = Some(3);
    assert_eq!(row.min_confidence(), 10);
    row.price_confidence = 5;
    assert_eq!(row.min_confidence(), 5);
    // Nor does a name that was entered by hand.
    row.name_confidence = 0;
    row.quantity_scu = None;
    row.price_confidence = 100;
    assert_eq!(row.min_confidence(), 100);
}

#[test]
fn submitting_takes_a_terminal_a_type_and_a_priced_row() {
    let mut e = Extraction::new("s.jpg");
    e.id_terminal = Some(1);
    e.terminal_type = Some(TerminalType::Buy);
    assert!(!e.is_submittable());
    e.commodities.push(Commodity::new("Iron"));
    e.commodities[0].price = Some(5);
    assert!(!e.is_submittable());
    e.commodities[0].id_commodity = Some(44);
    assert!(e.is_submittable());
    e.commodities[0].price = None;
    assert!(!e.is_submittable());
    e.commodities[0].price = Some(0);
    e.terminal_type = None;
    assert!(!e.is_submittable());
    e.terminal_type = Some(TerminalType::Sell);
    e.id_terminal = None;
    assert!(!e.is_submittable());
}

#[test]
fn types_have_names() {
    assert_eq!(TerminalType::Buy.as_str(), "buy");
    assert_eq!(TerminalType::Sell.as_str(), "sell");
}
