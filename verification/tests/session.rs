use datarunner_core::api::{SubmitResponse, TradeResponse};
use datarunner_core::model::{Commodity, Extraction, TerminalType};
use datarunner_core::session::{
    another_attempt, can_sync, save_due, Session, TradeForm, MAX_LINES,
};
use datarunner_core::store::{ReportState, ReportStore};
use datarunner_core::trade::{TradeLog, TradeOp, TradeSync};

fn session() -> Session {
    Session::new(Vec::new(), ReportStore::in_memory(), TradeLog::in_memory())
}

fn ready_extraction(file: &str) -> Extraction {
    let mut e = Extraction::new(file);
    e.id_terminal = Some(551);
    e.terminal_name = Some("Bueno Ravine".to_string());
    e.terminal_confidence = 90;
    e.terminal_type = Some(TerminalType::Buy);
    let mut row = Commodity::new("Iron");
    row.id_commodity = Some(44);
    row.price = Some(5);
    e.commodities.push(row);
    e
}

fn response(status: &str) -> SubmitResponse {
    SubmitResponse {
        status: status.to_string(),
        http_code: 200,
        ids_reports: vec!["9".to_string()],
        username: None,
        message: String::new(),
        date_added: None,
        dry_run: false,
    }
}

#[test]
fn a_screenshot_is_taken_up_once() {
    let mut s = session();
    assert!(s.take_up("d/a.jpg", &Some("a.jpg".to_string())));
    assert!(!s.take_up("d/a.jpg", &Some("a.jpg".to_string())));
    assert!(s.take_up("d/b.jpg", &None));
    assert_eq!(s.inflight, 2);
    assert_eq!(s.logs, vec!["Processing d/b.jpg", "Processing a.jpg"]);
    s.recognition_failed("no engine");
    assert_eq!(s.inflight, 1);
    assert_eq!(s.logs[0], "OCR failed: no engine");
}

#[test]
fn a_terminal_is_carried_over() {
    let mut s = session();
    let mut unknown = ready_extraction("b.jpg");
    unknown.id_terminal = None;
    unknown.terminal_name = None;
    s.receive(unknown.clone());
    assert_eq!(s.pending[0].id_terminal, None);
    assert_eq!(s.logs[0], "Extracted 1 commodities @ unknown");
    s.receive(ready_extraction("a.jpg"));
    s.receive(unknown);
    let e = &s.pending[2];
    assert_eq!((e.id_terminal, e.terminal_confidence), (Some(551), 0));
    assert_eq!(e.terminal_name.as_deref(), Some("Bueno Ravine"));
}

#[test]
fn the_log_is_bounded() {
    let mut s = session();
    for i in 0..MAX_LINES + 10 {
        s.note(&format!("line {i}"));
    }
    assert_eq!(s.logs.len(), MAX_LINES);
    assert_eq!(s.logs[0], format!("line {}", MAX_LINES + 9));
}

#[test]
fn accepted_reports_leave_the_list() {
    let mut s = session();
    s.receive(ready_extraction("a.jpg"));
    s.receive(ready_extraction("b.jpg"));
    assert!(s.begin_report("a.jpg"));
    assert!(!s.begin_report("a.jpg"));
    let e = s.pending[0].clone();
    assert!(!s.on_report_result("a.jpg", &e, None, Ok(response("bad")), true, 0));
    assert_eq!(s.pending.len(), 2);
    assert_eq!(s.reports.reports()[0].state, ReportState::Failed);
    assert!(s.submitting.is_empty());
    assert!(s.begin_report("a.jpg"));
    assert!(s.on_report_result("a.jpg", &e, None, Ok(response("ok")), true, 1));
    assert_eq!(s.pending.len(), 1);
    assert_eq!(s.pending[0].screenshot, "b.jpg");
    assert_eq!(s.toast, Some(("Submitted — reports [\"9\"]".to_string(), false)));
    assert_eq!(s.inflight_sub, 0);
}

#[test]
fn a_report_that_could_not_be_sent_stays() {
    let mut s = session();
    s.receive(ready_extraction("a.jpg"));
    let e = s.pending[0].clone();
    assert!(s.begin_report("a.jpg"));
    let delete = s.on_report_result("a.jpg", &e, None, Err("offline".to_string()), true, 0);
    assert!(!delete);
    assert_eq!(s.pending.len(), 1);
    assert!(s.reports.reports().is_empty());
    assert_eq!(s.status_line(), ("Submit error: offline".to_string(), Some(true)));
}

#[test]
fn a_corrected_report_replaces_the_saved_one() {
    let mut s = session();
    let e = ready_extraction("a.jpg");
    s.on_report_result("a.jpg", &e, None, Ok(response("ok")), false, 0);
    let id = s.reports.reports()[0].id.clone();
    s.open_report("nothing");
    assert!(s.editing.is_none());
    s.open_report(&id);
    let (opened, copy) = match &s.editing {
        Some((id, e)) => (id.clone(), e.clone()),
        None => panic!("not opened"),
    };
    assert_eq!(opened, id);
    assert_eq!(copy.commodities, e.commodities);
    assert_eq!(s.toast, None);
    s.on_report_result("a.jpg", &copy, Some(id.clone()), Ok(response("ok")), false, 1);
    assert_eq!(s.reports.get(&id).unwrap().state, ReportState::Updated);
    assert_eq!(s.reports.active().len(), 1);
}

#[test]
fn batches_leave_out_what_is_incomplete_or_on_its_way() {
    let mut s = session();
    s.receive(Extraction::new("none.jpg"));
    s.receive(ready_extraction("a.jpg"));
    s.receive(ready_extraction("b.jpg"));
    assert_eq!(s.ready(), 2);
    assert!(s.begin_report("a.jpg"));
    let batch = s.send_all();
    assert_eq!(batch.len(), 1);
    assert_eq!(batch[0].screenshot, "b.jpg");
    assert_eq!(s.logs[0], "Send All: submitting 1 in background");
    s.discard(0);
    s.discard(9);
    assert_eq!(s.pending.len(), 2);
}

#[test]
fn the_status_line_prefers_messages() {
    let mut s = session();
    assert_eq!(s.status_line(), ("Ready.".to_string(), None));
    s.note("noted");
    assert_eq!(s.status_line(), ("noted".to_string(), None));
    s.tell("told", false);
    assert_eq!(s.status_line(), ("told".to_string(), Some(false)));
}

fn form() -> TradeForm {
    TradeForm {
        operation: TradeOp::Buy,
        commodity: Some((44, "Iron".to_string())),
        terminal: Some((25, "Everus Harbor".to_string(), "Stanton".to_string())),
        scu: 12,
        price_bits: 3.5f64.to_bits(),
        price_is_positive: true,
    }
}

#[test]
fn forms_have_to_be_complete() {
    let mut s = session();
    let mut f = form();
    f.scu = 0;
    assert!(s.add_trade_from_form(&f, 1, 0).is_none());
    assert_eq!(s.toast, Some(("Enter SCU and price".to_string(), true)));
    f.scu = 1;
    f.price_is_positive = false;
    assert!(s.add_trade_from_form(&f, 1, 0).is_none());
    f.terminal = None;
    assert!(s.add_trade_from_form(&f, 1, 0).is_none());
    assert_eq!(s.toast, Some(("Pick a terminal first".to_string(), true)));
    f.commodity = None;
    assert!(s.add_trade_from_form(&f, 1, 0).is_none());
    assert_eq!(s.toast, Some(("Pick a commodity first".to_string(), true)));
    assert!(s.trades.entries().is_empty());
}

#[test]
fn trades_are_logged_and_sent() {
    let mut s = session();
    let entry = s.add_trade_from_form(&form(), 77, 4).unwrap();
    assert_eq!((entry.scu, entry.created_at), (12, 77));
    assert_eq!(entry.sync, TradeSync::Pending);
    assert_eq!(s.trades.entries(), &[entry.clone()]);
    assert_eq!(s.inflight_sub, 1);

    let mut r = TradeResponse {
        status: "bad".to_string(),
        http_code: 400,
        id_user_trade: None,
        message: "why".to_string(),
        dry_run: false,
    };
    s.on_trade_result(&entry.id, &Ok(r.clone()));
    let e = &s.trades.entries()[0];
    assert_eq!((e.sync, e.status_text.as_str()), (TradeSync::Failed, "bad — why"));

    assert!(s.sync_trade("x").is_none());
    assert_eq!(s.sync_trade(&entry.id).unwrap().sync, TradeSync::Pending);
    s.on_trade_result(&entry.id, &Err("offline".to_string()));
    let e = &s.trades.entries()[0];
    assert_eq!((e.sync, e.status_text.as_str()), (TradeSync::Local, "offline"));
    assert_eq!(s.toast, Some(("Trade not synced: offline".to_string(), true)));

    r.status = "ok".to_string();
    r.id_user_trade = Some(8);
    s.on_trade_result(&entry.id, &Ok(r));
    assert_eq!(s.trades.entries()[0].uex_id, Some(8));
    assert!(!can_sync(s.trades.entries()[0].sync));
    assert!(can_sync(TradeSync::Failed) && !can_sync(TradeSync::Pending));
}

#[test]
fn attempts_and_saves_are_limited() {
    assert!(another_attempt(5) && !another_attempt(6));
    assert!(save_due("a", "b", false, 400));
    assert!(!save_due("a", "b", false, 399));
    assert!(save_due("a", "b", true, 0));
    assert!(!save_due("a", "a", true, 1000));
}
