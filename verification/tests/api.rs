use datarunner_core::api::{
    build_payload, build_trade_payload, network_error, parse_response, parse_trade_response,
    response_from, submit, submit_trade, submittable_row_count, trade_response_from, Datum, Payload,
    Reply, Request, Row, Submission, SubmitOptions, SubmitResponse, TradeReply, TradeSubmission,
};
use datarunner_core::json::{value_to_i64, value_to_string, Field};
use datarunner_core::model::{Commodity, Extraction, TerminalType};
use datarunner_core::trade::{new_entry, TradeEntry, TradeOp};

fn buy_extraction() -> Extraction {
    let mut ex = Extraction::new("t.jpg");
    ex.id_terminal = Some(551);
    ex.terminal_type = Some(TerminalType::Buy);
    ex.captured_at = Some(1_786_594_856);
    let mut c = Commodity::new("Diamond");
    c.id_commodity = Some(25);
    c.price = Some(6561);
    c.quantity_scu = Some(525);
    c.status = Some(7);
    ex.commodities.push(c);
    ex
}

fn rows(p: &Payload) -> &Vec<Row> {
    match p.get("prices") {
        Some(Datum::Rows(rows)) => rows,
        _ => panic!("no prices"),
    }
}

fn integer(p: &Payload, name: &str) -> i64 {
    match p.get(name) {
        Some(Datum::Integer(n)) => *n,
        _ => panic!("no integer {name}"),
    }
}

fn text<'a>(p: &'a Payload, name: &str) -> &'a str {
    match p.get(name) {
        Some(Datum::Text(t)) => t,
        _ => panic!("no text {name}"),
    }
}

fn finished(s: Submission) -> SubmitResponse {
    match s {
        Submission::Finished(r) => r,
        Submission::Send(_) => panic!("a request"),
    }
}

fn live_options() -> SubmitOptions {
    SubmitOptions {
        base_url: "https://host/2.0//".to_string(),
        secret_key: " key ".to_string(),
        api_token: " Bearer Bearer bearer token ".to_string(),
        is_production: true,
        dry_run: false,
        game_version: None,
    }
}

fn header<'a>(r: &'a Request, name: &str) -> Option<&'a str> {
    r.headers.iter().find(|(n, _)| *n == name).map(|(_, v)| v.as_str())
}

#[test]
fn payload_uses_buy_fields() {
    let ex = buy_extraction();
    let opts = SubmitOptions::default();
    let p = build_payload(&ex, &opts, &Some("BASE64".to_string()));
    assert_eq!(integer(&p, "id_terminal"), 551);
    assert_eq!(text(&p, "type"), "commodity");
    assert_eq!(integer(&p, "date_added"), 1_786_594_856_i64);
    assert_eq!(text(&p, "screenshot"), "BASE64");
    let row = &rows(&p)[0];
    assert_eq!(row.get("id_commodity"), Some(25));
    assert_eq!(row.get("price_buy"), Some(6561));
    assert_eq!(row.get("scu_buy"), Some(525));
    assert_eq!(row.get("status_buy"), Some(7));
    assert!(row.get("price_sell").is_none());
}

#[test]
fn payload_uses_sell_fields() {
    let mut ex = buy_extraction();
    ex.terminal_type = Some(TerminalType::Sell);
    let p = build_payload(&ex, &SubmitOptions::default(), &None);
    let row = &rows(&p)[0];
    assert_eq!(row.get("price_sell"), Some(6561));
    assert!(row.get("price_buy").is_none());
    assert!(p.get("screenshot").is_none());
}

#[test]
fn excluded_rows_are_dropped() {
    let mut ex = buy_extraction();
    ex.commodities[0].included = false;
    let p = build_payload(&ex, &SubmitOptions::default(), &None);
    assert_eq!(rows(&p).len(), 0);
    assert_eq!(submittable_row_count(&ex), 0);
}

#[test]
fn dry_run_does_not_require_key_and_reports_count() {
    let ex = buy_extraction();
    let opts = SubmitOptions { dry_run: true, ..Default::default() };
    let r = finished(submit(&ex, &opts, &None).unwrap());
    assert!(r.dry_run);
    assert!(r.is_ok());
    assert!(r.message.contains("1 row"));
}

#[test]
fn parses_real_response() {
    let body = r#"{"status":"ok","http_code":200,"data":{"ids_reports":["958660","958662"],"date_added":"1786594856","username":"patches_124454"},"message":""}"#;
    let r = parse_response(200, body).unwrap();
    assert_eq!(r.status, "ok");
    assert_eq!(r.ids_reports, vec!["958660", "958662"]);
    assert_eq!(r.username.as_deref(), Some("patches_124454"));
    assert_eq!(r.date_added, Some(1_786_594_856));
    assert!(r.is_ok());
}

fn trade() -> TradeEntry {
    new_entry(
        TradeOp::Buy,
        18,
        "Compboard",
        29,
        "ARC-L3",
        "Stanton",
        110,
        2441.0f64.to_bits(),
        1,
        0,
    )
}

#[test]
fn trade_payload_and_dry_run() {
    let entry = trade();
    let p = build_trade_payload(&entry, true);
    assert_eq!(integer(&p, "id_terminal"), 29);
    assert_eq!(integer(&p, "id_commodity"), 18);
    assert_eq!(text(&p, "operation"), "buy");
    assert_eq!(integer(&p, "scu"), 110);
    match p.get("price") {
        Some(Datum::Real(bits)) => assert_eq!(f64::from_bits(*bits), 2441.0),
        _ => panic!("no price"),
    }
    assert_eq!(integer(&p, "is_production"), 1);

    let opts = SubmitOptions { dry_run: true, ..Default::default() };
    let r = match submit_trade(&entry, &opts) {
        Ok(TradeSubmission::Finished(r)) => r,
        _ => panic!("a dry run sends nothing"),
    };
    assert!(r.dry_run && r.is_ok());
}

#[test]
fn parses_trade_response_variants() {
    let a = parse_trade_response(
        200,
        r#"{"status":"ok","data":{"id_user_trade":8123},"message":""}"#,
    )
    .unwrap();
    assert_eq!(a.id_user_trade, Some(8123));
    assert!(a.is_ok());
    let b = parse_trade_response(200, r#"{"status":"ok","data":8124,"message":""}"#).unwrap();
    assert_eq!(b.id_user_trade, Some(8124));
}

#[test]
fn parses_error_response() {
    let body = r#"{"status":"missing_secret_key","http_code":400,"data":null,"message":"secret key required"}"#;
    let r = parse_response(400, body).unwrap();
    assert_eq!(r.status, "missing_secret_key");
    assert!(!r.is_ok());
    assert!(r.ids_reports.is_empty());
}

#[test]
fn rows_fill_in_what_is_not_known() {
    let mut ex = buy_extraction();
    ex.commodities[0].price = None;
    ex.commodities[0].status = None;
    let mut nameless = Commodity::new("?");
    nameless.price = Some(1);
    ex.commodities.push(nameless);
    let p = build_payload(&ex, &SubmitOptions::default(), &None);
    assert_eq!(rows(&p).len(), 1);
    assert_eq!(rows(&p).len(), submittable_row_count(&ex));
    let fields: Vec<(&str, i64)> = rows(&p)[0].fields.clone();
    assert_eq!(
        fields,
        vec![
            ("id_commodity", 25),
            ("price_buy", 0),
            ("scu_buy", 525),
            ("status_buy", 1),
            ("is_missing", 0)
        ]
    );
}

#[test]
fn a_version_is_sent_where_there_is_one() {
    let mut opts = SubmitOptions::default();
    assert!(build_payload(&buy_extraction(), &opts, &None).get("game_version").is_none());
    opts.game_version = Some("4.1".to_string());
    let p = build_payload(&buy_extraction(), &opts, &None);
    assert_eq!(text(&p, "game_version"), "4.1");
}

#[test]
fn a_missing_time_is_left_out() {
    let mut ex = buy_extraction();
    ex.captured_at = None;
    let p = build_payload(&ex, &SubmitOptions::default(), &None);
    assert!(p.get("date_added").is_none());
    // A missing terminal is not left out.
    ex.id_terminal = None;
    let p = build_payload(&ex, &SubmitOptions::default(), &None);
    assert!(matches!(p.get("id_terminal"), Some(Datum::Null)));
}

#[test]
fn submitting_needs_a_terminal_a_key_and_a_token() {
    let mut opts = live_options();
    let err = |ex: &Extraction, opts: &SubmitOptions| match submit(ex, opts, &None) {
        Err(e) => e,
        Ok(_) => panic!("submitted"),
    };
    let mut nowhere = buy_extraction();
    nowhere.id_terminal = None;
    assert_eq!(err(&nowhere, &opts), "cannot submit: terminal not identified");
    opts.api_token = " ".to_string();
    assert!(err(&buy_extraction(), &opts).contains("API token not set"));
    opts.secret_key = "\t".to_string();
    assert!(err(&buy_extraction(), &opts).contains("secret key not configured"));
    assert!(submit_trade(&trade(), &opts).is_err());
}

#[test]
fn requests_carry_key_token_and_payload() {
    let opts = live_options();
    let request = match submit(&buy_extraction(), &opts, &None) {
        Ok(Submission::Send(r)) => r,
        _ => panic!("no request"),
    };
    assert_eq!(request.url, "https://host/2.0/data_submit");
    assert_eq!(header(&request, "secret-key"), Some("key"));
    assert_eq!(header(&request, "Content-Type"), Some("application/json"));
    assert_eq!(header(&request, "Authorization"), Some("Bearer token"));
    assert_eq!(rows(&request.payload).len(), 1);

    let request = match submit_trade(&trade(), &opts) {
        Ok(TradeSubmission::Send(r)) => r,
        _ => panic!("no request"),
    };
    assert_eq!(request.url, "https://host/2.0/user_trades_add");
    // The lower-case spelling is left in a trade's token.
    assert_eq!(header(&request, "Authorization"), Some("Bearer bearer token"));
    assert_eq!(integer(&request.payload, "scu"), 110);
}

#[test]
fn replies_that_are_not_json_are_errors() {
    let e = parse_response(502, "<html>").unwrap_err();
    assert!(e.starts_with("invalid JSON response (502): "), "{e}");
    assert!(e.ends_with("; body=<html>"), "{e}");
    assert!(parse_trade_response(502, "").is_err());
    assert_eq!(network_error("timed out"), "network error: timed out");
}

#[test]
fn replies_are_read_field_by_field() {
    let reply = Reply {
        status: None,
        message: Some(Field::Number("5".to_string(), Some(5))),
        ids_reports: Some(vec![
            Field::Number("7".to_string(), Some(7)),
            Field::Other,
            Field::Text("8".to_string()),
        ]),
        username: Some(Field::Other),
        date_added: Some(Field::Text("x".to_string())),
    };
    let r = response_from(200, reply);
    assert_eq!(r.ids_reports, vec!["7", "8"]);
    assert_eq!((r.username, r.date_added), (None, None));
    assert!(!r.dry_run);

    let reply = TradeReply {
        status: Some(Field::Text("ok".to_string())),
        message: None,
        data: Some(Field::Text("12".to_string())),
        id_in_data: None,
    };
    assert_eq!(trade_response_from(200, reply).id_user_trade, Some(12));
}

#[test]
fn values_turn_into_texts_and_numbers() {
    assert_eq!(value_to_string(&Field::Text("a".to_string())).as_deref(), Some("a"));
    let number = Field::Number("1.5".to_string(), None);
    assert_eq!(value_to_string(&number).as_deref(), Some("1.5"));
    assert_eq!(value_to_i64(&number), None);
    assert_eq!(value_to_i64(&Field::Text("-42".to_string())), Some(-42));
    assert_eq!(value_to_i64(&Field::Text("4 2".to_string())), None);
    assert_eq!(value_to_i64(&Field::Number("9".to_string(), Some(9))), Some(9));
    assert_eq!(value_to_string(&Field::Object), None);
    assert_eq!(value_to_i64(&Field::Other), None);
}

#[test]
fn numbers_and_nested_ids_are_found_in_a_reply() {
    let body = r#"{"status":"ok","data":{"ids_reports":[1,"b",null],"date_added":5}}"#;
    let r = parse_response(200, body).unwrap();
    assert_eq!(r.ids_reports, vec!["1", "b"]);
    assert_eq!(r.date_added, Some(5));
    let r = parse_trade_response(200, r#"{"status":"ok","data":{"id_user_trade":"31"}}"#).unwrap();
    assert_eq!(r.id_user_trade, Some(31));
}
