use datarunner_core::api::{submit, Submission, SubmitOptions, SubmitResponse};
use datarunner_core::clock::write_id;
use datarunner_core::model::{Commodity, Extraction, TerminalType};
use datarunner_core::store::{report_from, report_with, ReportState, ReportStore};

fn ok_response(ids: &[&str]) -> SubmitResponse {
    SubmitResponse {
        status: "ok".into(),
        http_code: 200,
        ids_reports: ids.iter().map(|s| s.to_string()).collect(),
        username: Some("tester".into()),
        message: String::new(),
        date_added: Some(1_786_594_856),
        dry_run: false,
    }
}

fn sample_extraction() -> Extraction {
    let mut ex = Extraction::new("s.jpg");
    ex.terminal_name = Some("Bueno Ravine".into());
    ex.id_terminal = Some(551);
    ex.terminal_type = Some(TerminalType::Buy);
    ex.captured_at = Some(1_786_594_856);
    let mut c = Commodity::new("Diamond");
    c.id_commodity = Some(25);
    c.price = Some(6561);
    ex.commodities.push(c);
    ex
}

#[test]
fn report_captures_response() {
    let ex = sample_extraction();
    let r = report_from(&ex, &ok_response(&["958660", "958662"]), None, 0);
    assert_eq!(r.state, ReportState::Submitted);
    assert_eq!(r.ids_reports, vec!["958660", "958662"]);
    assert_eq!(r.id_terminal, 551);
    assert_eq!(r.terminal_type, TerminalType::Buy);
}

#[test]
fn supersede_marks_previous_updated() {
    let mut store = ReportStore::in_memory();
    let ex = sample_extraction();
    let first = report_from(&ex, &ok_response(&["1"]), None, 0);
    let first_id = store.add(first);

    let mut corrected = report_from(&ex, &ok_response(&["2"]), Some(first_id.clone()), 1);
    corrected.commodities[0].price = Some(7000);
    store.add(corrected);

    assert_eq!(store.get(&first_id).unwrap().state, ReportState::Updated);
    // Only the corrected report is "active".
    let active = store.active();
    assert_eq!(active.len(), 1);
    assert_eq!(active[0].commodities[0].price, Some(7000));
}

#[test]
fn to_extraction_round_trip() {
    let ex = sample_extraction();
    let r = report_from(&ex, &ok_response(&["1"]), None, 0);
    let back = r.to_extraction();
    assert_eq!(back.id_terminal, Some(551));
    assert_eq!(back.commodities[0].id_commodity, Some(25));
}

fn extraction_at(price: u32) -> Extraction {
    let mut ex = Extraction::new("ScreenShot.jpg");
    ex.terminal_name = Some("Bueno Ravine".into());
    ex.id_terminal = Some(551);
    ex.terminal_type = Some(TerminalType::Buy);
    ex.captured_at = Some(1_786_573_224);
    let mut c = Commodity::new("Diamond");
    c.id_commodity = Some(25);
    c.status = Some(7);
    c.quantity_scu = Some(525);
    c.price = Some(price);
    ex.commodities.push(c);
    ex
}

fn dry_submit(ex: &Extraction) -> SubmitResponse {
    let opts = SubmitOptions { dry_run: true, ..Default::default() };
    match submit(ex, &opts, &None) {
        Ok(Submission::Finished(r)) => r,
        _ => panic!("a dry run is finished at once"),
    }
}

#[test]
fn submit_save_edit_resubmit_flow() {
    let mut store = ReportStore::in_memory();

    // 1. Initial extraction is submitted (dry-run) and saved.
    let first = extraction_at(6561);
    let resp1 = dry_submit(&first);
    assert!(resp1.dry_run && resp1.is_ok());
    let first_id = store.add(report_from(&first, &resp1, None, 0));

    assert_eq!(store.active().len(), 1);
    assert_eq!(store.get(&first_id).unwrap().state, ReportState::DryRun);

    // 2. User opens the saved report, edits the price, and re-submits an update.
    let saved = store.get(&first_id).unwrap().clone();
    let mut edited = saved.to_extraction();
    assert_eq!(edited.commodities[0].price, Some(6561));
    edited.commodities[0].price = Some(7200); // correction

    let resp2 = dry_submit(&edited);
    let second_id = store.add(report_from(&edited, &resp2, Some(first_id.clone()), 1));

    // 3. The original is now superseded; only the corrected report is active.
    assert_eq!(store.get(&first_id).unwrap().state, ReportState::Updated);
    let active = store.active();
    assert_eq!(active.len(), 1);
    assert_eq!(active[0].id, second_id);
    assert_eq!(active[0].commodities[0].price, Some(7200));
    assert_eq!(active[0].supersedes.as_deref(), Some(first_id.as_str()));

    // 4. Full history is retained (both reports present).
    assert_eq!(store.reports().len(), 2);
}

#[test]
fn the_state_follows_the_response() {
    let mut ex = sample_extraction();
    ex.captured_at = None;
    let with = |r: &SubmitResponse| report_with(&ex, r, None, "r".to_string(), 5);
    let mut response = ok_response(&[]);
    assert_eq!(with(&response).state, ReportState::Submitted);
    assert_eq!(with(&response).submitted_at, 5);
    assert_eq!(with(&response).status_text, "ok");
    response.status = "error".to_string();
    response.message = "no".to_string();
    assert_eq!(with(&response).state, ReportState::Failed);
    assert_eq!(with(&response).status_text, "error — no");
    response.dry_run = true;
    assert_eq!(with(&response).state, ReportState::DryRun);
}

#[test]
fn states_have_labels() {
    let states = [
        ReportState::Submitted,
        ReportState::DryRun,
        ReportState::Failed,
        ReportState::Updated,
    ];
    let labels: Vec<&str> = states.iter().map(|s| s.label()).collect();
    assert_eq!(labels, vec!["Submitted", "Dry run", "Failed", "Updated (superseded)"]);
}

#[test]
fn active_reports_are_newest_first() {
    let mut store = ReportStore::in_memory();
    let mut ex = sample_extraction();
    ex.captured_at = None;
    for (id, at) in [("a", 10), ("b", 30), ("c", 20), ("d", 30)] {
        store.add(report_with(&ex, &ok_response(&[]), None, id.to_string(), at));
    }
    let ids: Vec<&str> = store.active().iter().map(|r| r.id.as_str()).collect();
    assert_eq!(ids, vec!["b", "d", "c", "a"]);
    assert!(store.get("x").is_none());
}

#[test]
fn missing_fields_of_an_extraction_get_defaults() {
    let ex = Extraction::new("s.jpg");
    let r = report_with(&ex, &ok_response(&[]), None, "r1".to_string(), 5);
    assert_eq!((r.id_terminal, r.terminal_type), (0, TerminalType::Sell));
    let store = ReportStore::from_reports(vec![r]);
    assert_eq!(store.reports()[0].id, "r1");
}

#[test]
fn ids_carry_letter_time_and_number() {
    assert_eq!(write_id('r', 1234, 5), "r1234-5");
    assert_ne!(write_id('r', 12, 34), write_id('r', 123, 4));
    let mut ex = sample_extraction();
    ex.captured_at = None;
    let a = report_from(&ex, &ok_response(&[]), None, 1);
    let b = report_from(&ex, &ok_response(&[]), None, 2);
    assert!(a.id.starts_with('r') && a.id.ends_with("-1"), "{}", a.id);
    assert_ne!(a.id, b.id);
    // The clock stands after 2020.
    assert!(a.submitted_at > 1_577_836_800);
}
