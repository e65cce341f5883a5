use datarunner_core::labels::{
    filter_items, fmt_auec, pending_title, report_message, report_message_with, terminal_label,
    trade_message, trust, Trust, MAX_SHOWN,
};
use datarunner_core::api::{build_payload, Datum, SubmitOptions, SubmitResponse, TradeResponse};
use datarunner_core::model::{Commodity, Extraction, TerminalType};
use datarunner_core::reference::{RawCommodity, Reference, TerminalEntry};
use datarunner_core::review::{
    add_row, choose_terminal, choose_type, delete_row, edit_price, edit_quantity, edit_status,
    rematch_name, selected_terminal, shown_price, shown_quantity, shown_status, shown_type,
};

fn response(status: &str, http_code: u16) -> SubmitResponse {
    SubmitResponse {
        status: status.to_string(),
        http_code,
        ids_reports: vec!["1".to_string(), "a\"b".to_string()],
        username: None,
        message: String::new(),
        date_added: None,
        dry_run: false,
    }
}

#[test]
fn amounts_have_separators() {
    assert_eq!(fmt_auec(0), "0 aUEC");
    assert_eq!(fmt_auec(999), "999 aUEC");
    assert_eq!(fmt_auec(1000), "1,000 aUEC");
    assert_eq!(fmt_auec(-1_234_567), "-1,234,567 aUEC");
    assert_eq!(fmt_auec(i64::MIN), "-9,223,372,036,854,775,808 aUEC");
}

#[test]
fn terminals_of_one_name_are_told_apart() {
    let op = Some("Admin".to_string());
    assert_eq!(terminal_label("Nyx Gateway", &op, "Pyro"), "Admin · Nyx Gateway — Pyro");
    assert_eq!(terminal_label("A", &None, ""), "A");
    assert_eq!(terminal_label("A", &Some(String::new()), "B"), "A — B");
}

#[test]
fn confidence_is_graded() {
    let grades: Vec<Trust> = [100, 85, 84, 65, 64, 0].iter().map(|c| trust(*c)).collect();
    let (good, doubtful, bad) = (Trust::Good, Trust::Doubtful, Trust::Bad);
    assert_eq!(grades, vec![good, good, doubtful, doubtful, bad, bad]);
}

#[test]
fn messages_say_what_became_of_a_report() {
    let mut e = Extraction::new("s");
    let mut row = Commodity::new("Iron");
    row.id_commodity = Some(44);
    e.commodities.push(row);
    let ok = response("ok", 200);
    assert_eq!(report_message(&e, &ok), "Submitted — reports [\"1\", \"a\\\"b\"]");
    assert_eq!(report_message_with(&e, &ok, "[]"), "Submitted — reports []");
    let mut bad = response("no_key", 403);
    assert_eq!(report_message(&e, &bad), "Rejected — no_key (http 403)");
    bad.message = "missing".to_string();
    assert_eq!(report_message(&e, &bad), "Rejected — no_key — missing");
    bad.dry_run = true;
    let dry = report_message(&e, &bad);
    assert!(dry.starts_with("Dry run OK — ") && dry.ends_with(" row(s) prepared"), "{dry}");
}

#[test]
fn messages_say_what_became_of_a_trade() {
    let mut r = TradeResponse {
        status: "ok".to_string(),
        http_code: 200,
        id_user_trade: Some(12),
        message: String::new(),
        dry_run: false,
    };
    assert_eq!(trade_message(&r), "Trade synced (UEX #Some(12))");
    r.id_user_trade = None;
    assert_eq!(trade_message(&r), "Trade synced (UEX #None)");
    r.status = "bad".to_string();
    assert_eq!(trade_message(&r), "UEX rejected trade: bad");
    r.dry_run = true;
    assert_eq!(trade_message(&r), "Trade logged (dry run — not sent to UEX)");
}

#[test]
fn titles_name_file_terminal_and_rows() {
    let mut e = Extraction::new("x/s.jpg");
    assert_eq!(pending_title(&e, "s.jpg"), "s.jpg  —  · pick terminal ·  (0 rows)");
    e.terminal_name = Some("T".to_string());
    add_row(&mut e);
    assert_eq!(pending_title(&e, "s.jpg"), "s.jpg  —  T  (1 rows)");
}

#[test]
fn filters_look_at_name_and_system() {
    let item = |n: &str, s: &str| (n.to_string(), s.to_string());
    let items = vec![item("Bueno Ravine", "Pyro"), item("Everus", "Stanton"), item("Rod", "PYRO")];
    assert_eq!(filter_items("pyro", &items), vec![0, 2]);
    assert_eq!(filter_items("EVER", &items), vec![1]);
    assert_eq!(filter_items("", &items), vec![0, 1, 2]);
    let many = vec![item("x", "y"); MAX_SHOWN + 5];
    assert_eq!(filter_items("x", &many).len(), MAX_SHOWN);
}

#[test]
fn corrections_change_what_they_name() {
    let mut e = Extraction::new("s");
    choose_terminal(&mut e, 5, "T");
    choose_type(&mut e, TerminalType::Sell);
    add_row(&mut e);
    add_row(&mut e);
    let row = &mut e.commodities[0];
    row.id_commodity = Some(44);
    edit_status(row, 3);
    edit_quantity(row, 9);
    edit_price(row, 70);
    assert_eq!((row.status, row.quantity_scu, row.price), (Some(3), Some(9), Some(70)));
    assert_eq!((row.quantity_confidence, row.price_confidence), (100, 100));
    row.quantity_confidence = 60;
    edit_quantity(row, 10);
    assert_eq!(row.quantity_confidence, 60);

    // The corrected price is what is sent.
    let p = build_payload(&e, &SubmitOptions::default(), &None);
    match p.get("prices") {
        Some(Datum::Rows(rows)) => assert_eq!(rows[0].get("price_sell"), Some(70)),
        _ => panic!("no rows"),
    }

    edit_price(&mut e.commodities[0], 0);
    assert_eq!(e.commodities[0].price, None);
    delete_row(&mut e, 0);
    assert_eq!(e.commodities, vec![Commodity::new("")]);
    assert_eq!((e.id_terminal, e.terminal_name.as_deref()), (Some(5), Some("T")));
}

#[test]
fn an_edited_name_is_matched_again() {
    let iron = RawCommodity { id: 44, name: "Iron".into(), is_available: 1, is_visible: 1 };
    let reference = match Reference::from_json(Ok(vec![iron]), Ok(Vec::new())) {
        Ok(r) => r,
        Err(e) => panic!("{e}"),
    };
    let mut row = Commodity::new("Irom");
    rematch_name(&mut row, &reference);
    assert_eq!((row.id_commodity, row.name.as_str()), (Some(44), "Iron"));
    assert_eq!(row.name_confidence, 75);
    let none = match Reference::from_json(Ok(Vec::new()), Ok(Vec::new())) {
        Ok(r) => r,
        Err(e) => panic!("{e}"),
    };
    rematch_name(&mut row, &none);
    assert_eq!(row.id_commodity, Some(44));
}

#[test]
fn the_selector_shows_the_listed_terminal() {
    let t = TerminalEntry {
        id: 5,
        name: "T".to_string(),
        nickname: "t".to_string(),
        system: "Pyro".to_string(),
        operator: None,
    };
    let list = vec![t];
    let mut e = Extraction::new("s");
    assert_eq!(selected_terminal(&e, &list), "· select ·");
    e.terminal_name = Some("Old".to_string());
    e.id_terminal = Some(6);
    assert_eq!(selected_terminal(&e, &list), "Old");
    e.id_terminal = Some(5);
    assert_eq!(selected_terminal(&e, &list), "T — Pyro");
}

#[test]
fn fields_start_with_what_is_known() {
    let mut e = Extraction::new("s");
    assert_eq!(shown_type(&e), TerminalType::Sell);
    e.terminal_type = Some(TerminalType::Buy);
    assert_eq!(shown_type(&e), TerminalType::Buy);
    let mut row = Commodity::new("Iron");
    assert_eq!((shown_status(&row), shown_quantity(&row), shown_price(&row)), (1, 0, 0));
    row.status = Some(4);
    row.quantity_scu = Some(5);
    row.price = Some(6);
    assert_eq!((shown_status(&row), shown_quantity(&row), shown_price(&row)), (4, 5, 6));
}
