//! Submissions to the service: their payloads, what is sent where, and what the
//! replies say. In dry-run mode everything is prepared and nothing is sent.

use vstd::prelude::*;

use crate::json::{
    field_view, fields_view, json_field, json_list, json_problem, json_problem_of, look_up,
    look_up_list, value_to_i64, value_to_string, Field, FieldView,
};
use crate::model::{
    copy_text, copy_texts, lemma_views_push, text_of, views, Commodity, CommodityView, Extraction,
    ExtractionView, TerminalType,
};
use crate::number::{decimal, i64_of, push_decimal};
use crate::text::{
    append_chars, chars_of, push_text, same, starts_with, string_of, strip_prefix, strip_trailing,
    trim, trimmed, without_prefix, without_trailing,
};
use crate::trade::{TradeEntry, TradeOp, TradeView};

verus! {

/// Where the service is.
pub const DEFAULT_BASE_URL: &'static str = "https://api.uexcorp.space/2.0";

/// Options of a submission.
#[derive(Debug)]
pub struct SubmitOptions {
    pub base_url: String,
    pub secret_key: String,
    /// Token of the application, which authorises the request.
    pub api_token: String,
    /// Whether the rows are published or are test rows.
    pub is_production: bool,
    /// Prepare everything, but send nothing.
    pub dry_run: bool,
    pub game_version: Option<String>,
}

impl Clone for SubmitOptions {
    fn clone(&self) -> (r: Self)
        ensures
            r.base_url@ == self.base_url@,
            r.secret_key@ == self.secret_key@,
            r.api_token@ == self.api_token@,
            r.is_production == self.is_production,
            r.dry_run == self.dry_run,
            text_of(r.game_version) == text_of(self.game_version),
    {
        SubmitOptions {
            base_url: self.base_url.clone(),
            secret_key: self.secret_key.clone(),
            api_token: self.api_token.clone(),
            is_production: self.is_production,
            dry_run: self.dry_run,
            game_version: copy_text(&self.game_version),
        }
    }
}

impl Default for SubmitOptions {
    fn default() -> (r: Self)
        ensures
            r.base_url@ == DEFAULT_BASE_URL@,
            r.secret_key@ == Seq::<char>::empty(),
            r.api_token@ == Seq::<char>::empty(),
            r.is_production,
            r.dry_run,
            r.game_version is None,
    {
        SubmitOptions {
            base_url: DEFAULT_BASE_URL.to_owned(),
            secret_key: String::new(),
            api_token: String::new(),
            is_production: true,
            dry_run: true,
            game_version: None,
        }
    }
}

/// The outcome of a submission.
#[derive(Debug, PartialEq)]
pub struct SubmitResponse {
    pub status: String,
    pub http_code: u16,
    pub ids_reports: Vec<String>,
    pub username: Option<String>,
    pub message: String,
    pub date_added: Option<i64>,
    pub dry_run: bool,
}

/// What a [`SubmitResponse`] stands for.
pub struct ResponseView {
    pub status: Seq<char>,
    pub http_code: u16,
    pub ids_reports: Seq<Seq<char>>,
    pub username: Option<Seq<char>>,
    pub message: Seq<char>,
    pub date_added: Option<i64>,
    pub dry_run: bool,
}

impl View for SubmitResponse {
    type V = ResponseView;

    open spec fn view(&self) -> ResponseView {
        ResponseView {
            status: self.status@,
            http_code: self.http_code,
            ids_reports: views(self.ids_reports@),
            username: text_of(self.username),
            message: self.message@,
            date_added: self.date_added,
            dry_run: self.dry_run,
        }
    }
}

impl Clone for SubmitResponse {
    fn clone(&self) -> (r: Self)
        ensures
            r@ == self@,
    {
        SubmitResponse {
            status: self.status.clone(),
            http_code: self.http_code,
            ids_reports: copy_texts(&self.ids_reports),
            username: copy_text(&self.username),
            message: self.message.clone(),
            date_added: self.date_added,
            dry_run: self.dry_run,
        }
    }
}

impl ResponseView {
    /// The submission went well, or was only prepared.
    pub open spec fn ok(self) -> bool {
        self.status == "ok"@ || self.dry_run
    }
}

impl SubmitResponse {
    /// Whether the submission went well, or was only prepared.
    pub fn is_ok(&self) -> (r: bool)
        ensures
            r == self@.ok(),
    {
        same(self.status.as_str(), "ok") || self.dry_run
    }
}

/// A value in a payload.
#[derive(Debug, PartialEq)]
pub enum Datum {
    Null,
    Integer(i64),
    /// A double-precision number, as its bits.
    Real(u64),
    Text(String),
    Rows(Vec<Row>),
}

/// A row of numbers in a payload, each with its name.
#[derive(Debug, PartialEq)]
pub struct Row {
    pub fields: Vec<(&'static str, i64)>,
}

/// A payload: values with their names.
#[derive(Debug, PartialEq)]
pub struct Payload {
    pub fields: Vec<(&'static str, Datum)>,
}

/// What a [`Datum`] stands for.
pub enum DatumView {
    Null,
    Integer(int),
    Real(u64),
    Text(Seq<char>),
    Rows(Seq<Seq<(Seq<char>, int)>>),
}

impl View for Row {
    type V = Seq<(Seq<char>, int)>;

    open spec fn view(&self) -> Seq<(Seq<char>, int)> {
        Seq::new(self.fields@.len(), |i: int| (self.fields@[i].0@, self.fields@[i].1 as int))
    }
}

impl View for Datum {
    type V = DatumView;

    open spec fn view(&self) -> DatumView {
        match self {
            Datum::Null => DatumView::Null,
            Datum::Integer(n) => DatumView::Integer(*n as int),
            Datum::Real(bits) => DatumView::Real(*bits),
            Datum::Text(s) => DatumView::Text(s@),
            Datum::Rows(rows) => DatumView::Rows(views(rows@)),
        }
    }
}

impl View for Payload {
    type V = Seq<(Seq<char>, DatumView)>;

    open spec fn view(&self) -> Seq<(Seq<char>, DatumView)> {
        Seq::new(self.fields@.len(), |i: int| (self.fields@[i].0@, self.fields@[i].1@))
    }
}

impl Row {
    /// The number with a name.
    pub fn get(&self, name: &str) -> (r: Option<i64>)
        ensures
            match r {
                Some(n) => exists|i: int|
                    0 <= i < self@.len() && #[trigger] self@[i] == (name@, n as int),
                None => forall|i: int| 0 <= i < self@.len() ==> (#[trigger] self@[i]).0 != name@,
            },
    {
        let mut i: usize = 0;
        while i < self.fields.len()
            invariant
                i <= self.fields.len(),
                forall|j: int| 0 <= j < i ==> (#[trigger] self@[j]).0 != name@,
            decreases self.fields.len() - i,
        {
            if same(self.fields[i].0, name) {
                assert(self@[i as int] == (name@, self.fields@[i as int].1 as int));
                return Some(self.fields[i].1);
            }
            i += 1;
        }
        None
    }

    fn put(&mut self, name: &'static str, n: i64)
        ensures
            final(self)@ == old(self)@.push((name@, n as int)),
    {
        let ghost before = self@;
        self.fields.push((name, n));
        assert(self@ =~= before.push((name@, n as int)));
    }
}

impl Payload {
    /// The value with a name.
    pub fn get(&self, name: &str) -> (r: Option<&Datum>)
        ensures
            match r {
                Some(d) => exists|i: int|
                    0 <= i < self@.len() && #[trigger] self@[i] == (name@, d@),
                None => forall|i: int| 0 <= i < self@.len() ==> (#[trigger] self@[i]).0 != name@,
            },
    {
        let mut i: usize = 0;
        while i < self.fields.len()
            invariant
                i <= self.fields.len(),
                forall|j: int| 0 <= j < i ==> (#[trigger] self@[j]).0 != name@,
            decreases self.fields.len() - i,
        {
            if same(self.fields[i].0, name) {
                assert(self@[i as int] == (name@, self.fields@[i as int].1@));
                return Some(&self.fields[i].1);
            }
            i += 1;
        }
        None
    }

    fn put(&mut self, name: &'static str, value: Datum)
        ensures
            final(self)@ == old(self)@.push((name@, value@)),
    {
        let ghost before = self@;
        self.fields.push((name, value));
        assert(self@ =~= before.push((name@, value@)));
    }
}

/// A row that is sent: of a known commodity, selected, and with some value.
pub open spec fn is_sent(row: CommodityView) -> bool {
    &&& row.id_commodity is Some
    &&& row.included
    &&& row.status is Some || row.price is Some || row.quantity_scu is Some
}

/// A row of a payload. Missing prices and quantities are sent as 0, and a missing
/// status as out of stock.
pub open spec fn sent_row(row: CommodityView, terminal_type: TerminalType) -> Seq<
    (Seq<char>, int),
> {
    let id = row.id_commodity->0 as int;
    let price = match row.price {
        Some(price) => price as int,
        None => 0,
    };
    let scu = match row.quantity_scu {
        Some(scu) => scu as int,
        None => 0,
    };
    let status = match row.status {
        Some(status) => status as int,
        None => 1,
    };
    match terminal_type {
        TerminalType::Buy => seq![
            ("id_commodity"@, id),
            ("price_buy"@, price),
            ("scu_buy"@, scu),
            ("status_buy"@, status),
            ("is_missing"@, 0),
        ],
        TerminalType::Sell => seq![
            ("id_commodity"@, id),
            ("price_sell"@, price),
            ("scu_sell"@, scu),
            ("status_sell"@, status),
            ("is_missing"@, 0),
        ],
    }
}

/// The rows that are sent.
pub open spec fn sent_rows(rows: Seq<CommodityView>, terminal_type: TerminalType) -> Seq<
    Seq<(Seq<char>, int)>,
>
    decreases rows.len(),
{
    if rows.len() == 0 {
        Seq::empty()
    } else {
        let before = sent_rows(rows.drop_last(), terminal_type);
        if is_sent(rows.last()) {
            before.push(sent_row(rows.last(), terminal_type))
        } else {
            before
        }
    }
}

/// How many rows are sent.
pub open spec fn sent_count(rows: Seq<CommodityView>) -> nat
    decreases rows.len(),
{
    if rows.len() == 0 {
        0
    } else {
        sent_count(rows.drop_last()) + if is_sent(rows.last()) {
            1nat
        } else {
            0nat
        }
    }
}

/// A flag as a number.
pub open spec fn flag(b: bool) -> int {
    if b {
        1
    } else {
        0
    }
}

/// The type of an extraction, which sells where it is not known.
pub open spec fn type_or_sell(t: Option<TerminalType>) -> TerminalType {
    match t {
        Some(t) => t,
        None => TerminalType::Sell,
    }
}

/// An optional field.
pub open spec fn optional_field(name: Seq<char>, value: Option<DatumView>) -> Seq<
    (Seq<char>, DatumView),
> {
    match value {
        Some(value) => seq![(name, value)],
        None => Seq::empty(),
    }
}

/// The payload of a submission.
pub open spec fn payload_of(
    e: ExtractionView,
    options: SubmitOptions,
    screenshot: Option<Seq<char>>,
) -> Seq<(Seq<char>, DatumView)> {
    seq![
        (
            "id_terminal"@,
            match e.id_terminal {
                Some(id) => DatumView::Integer(id as int),
                None => DatumView::Null,
            },
        ),
        ("type"@, DatumView::Text("commodity"@)),
        ("is_production"@, DatumView::Integer(flag(options.is_production))),
        (
            "prices"@,
            DatumView::Rows(sent_rows(e.commodities, type_or_sell(e.terminal_type))),
        ),
    ] + optional_field(
        "game_version"@,
        match options.game_version {
            Some(version) => Some(DatumView::Text(version@)),
            None => None,
        },
    ) + optional_field(
        "date_added"@,
        match e.captured_at {
            Some(t) => Some(DatumView::Integer(t as int)),
            None => None,
        },
    ) + optional_field(
        "screenshot"@,
        match screenshot {
            Some(s) => Some(DatumView::Text(s)),
            None => None,
        },
    )
}

fn sends(row: &Commodity) -> (r: bool)
    ensures
        r == is_sent(row@),
{
    row.id_commodity.is_some() && row.included && (row.status.is_some() || row.price.is_some()
        || row.quantity_scu.is_some())
}

fn number_or(n: Option<u32>, otherwise: i64) -> (r: i64)
    ensures
        r == match n {
            Some(n) => n as int,
            None => otherwise as int,
        },
{
    match n {
        Some(n) => n as i64,
        None => otherwise,
    }
}

fn build_row(row: &Commodity, terminal_type: TerminalType) -> (r: Row)
    requires
        row@.id_commodity is Some,
    ensures
        r@ == sent_row(row@, terminal_type),
{
    let status: i64 = match row.status {
        Some(status) => status as i64,
        None => 1,
    };
    let mut r = Row { fields: Vec::new() };
    assert(r@ =~= Seq::empty());
    r.put("id_commodity", number_or(row.id_commodity, 0));
    match terminal_type {
        TerminalType::Buy => {
            r.put("price_buy", number_or(row.price, 0));
            r.put("scu_buy", number_or(row.quantity_scu, 0));
            r.put("status_buy", status);
        },
        TerminalType::Sell => {
            r.put("price_sell", number_or(row.price, 0));
            r.put("scu_sell", number_or(row.quantity_scu, 0));
            r.put("status_sell", status);
        },
    }
    r.put("is_missing", 0);
    assert(r@ =~= sent_row(row@, terminal_type));
    r
}

fn build_rows(rows: &Vec<Commodity>, terminal_type: TerminalType) -> (r: Vec<Row>)
    ensures
        views(r@) == sent_rows(views(rows@), terminal_type),
{
    let ghost all = views(rows@);
    let mut r: Vec<Row> = Vec::new();
    let mut i: usize = 0;
    assert(views(r@) =~= Seq::empty());
    while i < rows.len()
        invariant
            i <= rows.len(),
            all == views(rows@),
            views(r@) == sent_rows(all.take(i as int), terminal_type),
        decreases rows.len() - i,
    {
        proof {
            assert(all.take(i + 1).drop_last() =~= all.take(i as int));
            assert(all.take(i + 1).last() == rows@[i as int]@);
        }
        if sends(&rows[i]) {
            let row = build_row(&rows[i], terminal_type);
            proof {
                lemma_views_push(r@, row);
            }
            r.push(row);
        }
        i += 1;
    }
    assert(all.take(i as int) =~= all);
    r
}

/// Builds the payload of a submission. The screenshot, encoded in base64, is
/// evidence that newcomers have to send.
pub fn build_payload(
    e: &Extraction,
    options: &SubmitOptions,
    screenshot: &Option<String>,
) -> (p: Payload)
    ensures
        p@ == payload_of(e@, *options, text_of(*screenshot)),
{
    let terminal_type = match e.terminal_type {
        Some(t) => t,
        None => TerminalType::Sell,
    };
    let mut p = Payload { fields: Vec::new() };
    assert(p@ =~= Seq::empty());
    p.put(
        "id_terminal",
        match e.id_terminal {
            Some(id) => Datum::Integer(id as i64),
            None => Datum::Null,
        },
    );
    p.put("type", Datum::Text("commodity".to_owned()));
    p.put(
        "is_production",
        Datum::Integer(
            if options.is_production {
                1
            } else {
                0
            },
        ),
    );
    p.put("prices", Datum::Rows(build_rows(&e.commodities, terminal_type)));
    if let Some(version) = &options.game_version {
        p.put("game_version", Datum::Text(version.clone()));
    }
    if let Some(t) = e.captured_at {
        p.put("date_added", Datum::Integer(t));
    }
    if let Some(s) = screenshot {
        p.put("screenshot", Datum::Text(s.clone()));
    }
    assert(p@ =~= payload_of(e@, *options, text_of(*screenshot)));
    p
}

/// The number of rows that are sent.
pub fn submittable_row_count(e: &Extraction) -> (n: usize)
    ensures
        n == sent_count(e@.commodities),
{
    let ghost all = views(e.commodities@);
    let mut n: usize = 0;
    let mut i: usize = 0;
    while i < e.commodities.len()
        invariant
            i <= e.commodities.len(),
            all == views(e.commodities@),
            n == sent_count(all.take(i as int)),
            n <= i,
        decreases e.commodities.len() - i,
    {
        proof {
            assert(all.take(i + 1).drop_last() =~= all.take(i as int));
            assert(all.take(i + 1).last() == e.commodities@[i as int]@);
        }
        if sends(&e.commodities[i]) {
            n += 1;
        }
        i += 1;
    }
    assert(all.take(i as int) =~= all);
    n
}

/// The payload has as many rows as are counted.
pub proof fn law_count_matches_payload(rows: Seq<CommodityView>, terminal_type: TerminalType)
    ensures
        sent_rows(rows, terminal_type).len() == sent_count(rows),
    decreases rows.len(),
{
    if rows.len() > 0 {
        law_count_matches_payload(rows.drop_last(), terminal_type);
    }
}

/// A request to the service.
#[derive(Debug)]
pub struct Request {
    pub url: String,
    pub headers: Vec<(&'static str, String)>,
    pub payload: Payload,
}

/// What a [`Request`] stands for.
pub struct RequestView {
    pub url: Seq<char>,
    pub headers: Seq<(Seq<char>, Seq<char>)>,
    pub payload: Seq<(Seq<char>, DatumView)>,
}

impl View for Request {
    type V = RequestView;

    open spec fn view(&self) -> RequestView {
        RequestView {
            url: self.url@,
            headers: Seq::new(
                self.headers@.len(),
                |i: int| (self.headers@[i].0@, self.headers@[i].1@),
            ),
            payload: self.payload@,
        }
    }
}

/// What becomes of a submission: it is finished, or a request is to be sent.
#[derive(Debug)]
pub enum Submission {
    Finished(SubmitResponse),
    Send(Request),
}

/// What a [`Submission`] stands for.
pub enum SubmissionView {
    Finished(ResponseView),
    Send(RequestView),
}

impl View for Submission {
    type V = SubmissionView;

    open spec fn view(&self) -> SubmissionView {
        match self {
            Submission::Finished(r) => SubmissionView::Finished(r@),
            Submission::Send(r) => SubmissionView::Send(r@),
        }
    }
}

/// What a result stands for.
pub open spec fn result_view<T: View>(r: Result<T, String>) -> Result<T::V, Seq<char>> {
    match r {
        Ok(v) => Ok(v.view()),
        Err(e) => Err(e@),
    }
}

/// The address of an endpoint.
pub open spec fn endpoint(base_url: Seq<char>, path: Seq<char>) -> Seq<char> {
    without_trailing(base_url, '/') + path
}

/// A token without the words that are sometimes pasted in front of it.
pub open spec fn bare_token(token: Seq<char>) -> Seq<char> {
    trim(without_prefix(without_prefix(trim(token), "Bearer "@), "bearer "@))
}

/// The response to a submission in dry-run mode.
pub open spec fn dry_response(e: ExtractionView) -> ResponseView {
    ResponseView {
        status: "dry_run"@,
        http_code: 0,
        ids_reports: Seq::empty(),
        username: None,
        message: "Dry run: "@ + decimal(sent_count(e.commodities))
            + " row(s) prepared, not submitted"@,
        date_added: e.captured_at,
        dry_run: true,
    }
}

/// The request of a submission.
pub open spec fn submit_request(
    e: ExtractionView,
    options: SubmitOptions,
    screenshot: Option<Seq<char>>,
) -> RequestView {
    let token = bare_token(options.api_token@);
    let headers = seq![
        ("secret-key"@, trim(options.secret_key@)),
        ("Content-Type"@, "application/json"@),
    ];
    RequestView {
        url: endpoint(options.base_url@, "/data_submit"@),
        headers: if token.len() > 0 {
            headers.push(("Authorization"@, "Bearer "@ + token))
        } else {
            headers
        },
        payload: payload_of(e, options, screenshot),
    }
}

/// What becomes of a submission. Without a terminal nothing can be submitted; in
/// dry-run mode nothing is sent; and a request needs the key and the token.
pub open spec fn submission(
    e: ExtractionView,
    options: SubmitOptions,
    screenshot: Option<Seq<char>>,
) -> Result<SubmissionView, Seq<char>> {
    if e.id_terminal is None {
        Err("cannot submit: terminal not identified"@)
    } else if options.dry_run {
        Ok(SubmissionView::Finished(dry_response(e)))
    } else if trim(options.secret_key@).len() == 0 {
        Err("cannot submit: UEX secret key not configured (Settings)"@)
    } else if trim(options.api_token@).len() == 0 {
        Err(
            "cannot submit: UEX application API token not set — create an app at https://uexcorp.space/api/apps and paste its token in Settings"@,
        )
    } else {
        Ok(SubmissionView::Send(submit_request(e, options, screenshot)))
    }
}

fn trimmed_str(s: &str) -> (r: Vec<char>)
    ensures
        r@ == trim(s@),
{
    trimmed(&chars_of(s))
}

fn endpoint_url(base_url: &str, path: &str) -> (r: String)
    ensures
        r@ == endpoint(base_url@, path@),
{
    let mut v = strip_trailing(&chars_of(base_url), '/');
    push_text(&mut v, path);
    string_of(&v)
}

fn bearer(token: &Vec<char>) -> (r: String)
    ensures
        r@ == "Bearer "@ + token@,
{
    let mut v = chars_of("Bearer ");
    append_chars(&mut v, token);
    string_of(&v)
}

/// Decides what becomes of a submission: an error, a response right away, or a
/// request to be sent, whose reply [`parse_response`] reads.
pub fn submit(e: &Extraction, options: &SubmitOptions, screenshot: &Option<String>) -> (r: Result<
    Submission,
    String,
>)
    ensures
        result_view(r) == submission(e@, *options, text_of(*screenshot)),
{
    if e.id_terminal.is_none() {
        return Err("cannot submit: terminal not identified".to_owned());
    }
    if options.dry_run {
        let mut message = chars_of("Dry run: ");
        push_decimal(&mut message, submittable_row_count(e) as u64);
        push_text(&mut message, " row(s) prepared, not submitted");
        let response = SubmitResponse {
            status: "dry_run".to_owned(),
            http_code: 0,
            ids_reports: Vec::new(),
            username: None,
            message: string_of(&message),
            date_added: e.captured_at,
            dry_run: true,
        };
        assert(response@.ids_reports =~= Seq::empty());
        return Ok(Submission::Finished(response));
    }
    let key = trimmed_str(options.secret_key.as_str());
    if key.len() == 0 {
        return Err("cannot submit: UEX secret key not configured (Settings)".to_owned());
    }
    let token = trimmed_str(options.api_token.as_str());
    if token.len() == 0 {
        return Err(
            "cannot submit: UEX application API token not set — create an app at https://uexcorp.space/api/apps and paste its token in Settings".to_owned(),
        );
    }
    let token = strip_prefix(&token, &chars_of("Bearer "));
    let token = strip_prefix(&token, &chars_of("bearer "));
    let token = trimmed(&token);
    let mut headers: Vec<(&'static str, String)> = Vec::new();
    headers.push(("secret-key", string_of(&key)));
    headers.push(("Content-Type", "application/json".to_owned()));
    if token.len() > 0 {
        headers.push(("Authorization", bearer(&token)));
    }
    let request = Request {
        url: endpoint_url(options.base_url.as_str(), "/data_submit"),
        headers,
        payload: build_payload(e, options, screenshot),
    };
    assert(request@.headers =~= submit_request(e@, *options, text_of(*screenshot)).headers);
    Ok(Submission::Send(request))
}

/// What to say where the service could not be reached.
pub fn network_error(problem: &str) -> (r: String)
    ensures
        r@ == "network error: "@ + problem@,
{
    let mut v = chars_of("network error: ");
    push_text(&mut v, problem);
    string_of(&v)
}

/// What to say of a reply that is not JSON.
pub open spec fn invalid_reply(http_code: u16, problem: Seq<char>, body: Seq<char>) -> Seq<char> {
    "invalid JSON response ("@ + decimal(http_code as nat) + "): "@ + problem + "; body="@ + body
}

fn invalid_reply_text(http_code: u16, problem: &str, body: &str) -> (r: String)
    ensures
        r@ == invalid_reply(http_code, problem@, body@),
{
    let mut v = chars_of("invalid JSON response (");
    push_decimal(&mut v, http_code as u64);
    push_text(&mut v, "): ");
    push_text(&mut v, problem);
    push_text(&mut v, "; body=");
    push_text(&mut v, body);
    string_of(&v)
}

/// The parts of a reply to a submission that are looked at.
#[derive(Debug)]
pub struct Reply {
    pub status: Option<Field>,
    pub message: Option<Field>,
    pub ids_reports: Option<Vec<Field>>,
    pub username: Option<Field>,
    pub date_added: Option<Field>,
}

/// What a [`Reply`] stands for.
pub struct ReplyView {
    pub status: Option<FieldView>,
    pub message: Option<FieldView>,
    pub ids_reports: Option<Seq<FieldView>>,
    pub username: Option<FieldView>,
    pub date_added: Option<FieldView>,
}

impl View for Reply {
    type V = ReplyView;

    open spec fn view(&self) -> ReplyView {
        ReplyView {
            status: field_view(self.status),
            message: field_view(self.message),
            ids_reports: fields_view(self.ids_reports),
            username: field_view(self.username),
            date_added: field_view(self.date_added),
        }
    }
}

/// The text of a field that is a text; otherwise the one given.
pub open spec fn text_or(field: Option<FieldView>, otherwise: Seq<char>) -> Seq<char> {
    match field {
        Some(FieldView::Text(s)) => s,
        _ => otherwise,
    }
}

/// The texts of the fields that are texts or numbers.
pub open spec fn texts_of(fields: Seq<FieldView>) -> Seq<Seq<char>>
    decreases fields.len(),
{
    if fields.len() == 0 {
        Seq::empty()
    } else {
        match fields.last().as_text() {
            Some(s) => texts_of(fields.drop_last()).push(s),
            None => texts_of(fields.drop_last()),
        }
    }
}

/// The response that a reply gives.
pub open spec fn response_of(http_code: u16, reply: ReplyView) -> ResponseView {
    ResponseView {
        status: text_or(reply.status, "error"@),
        http_code,
        ids_reports: match reply.ids_reports {
            Some(fields) => texts_of(fields),
            None => Seq::empty(),
        },
        username: match reply.username {
            Some(field) => field.as_text(),
            None => None,
        },
        message: text_or(reply.message, ""@),
        date_added: match reply.date_added {
            Some(field) => field.as_integer(),
            None => None,
        },
        dry_run: false,
    }
}

fn take_text(field: Option<Field>, otherwise: &str) -> (r: String)
    ensures
        r@ == text_or(field_view(field), otherwise@),
{
    match field {
        Some(Field::Text(s)) => s,
        _ => otherwise.to_owned(),
    }
}

fn take_texts(fields: &Vec<Field>) -> (r: Vec<String>)
    ensures
        views(r@) == texts_of(views(fields@)),
{
    let ghost all = views(fields@);
    let mut r: Vec<String> = Vec::new();
    let mut i: usize = 0;
    assert(views(r@) =~= Seq::empty());
    while i < fields.len()
        invariant
            i <= fields.len(),
            all == views(fields@),
            views(r@) == texts_of(all.take(i as int)),
        decreases fields.len() - i,
    {
        proof {
            assert(all.take(i + 1).drop_last() =~= all.take(i as int));
            assert(all.take(i + 1).last() == fields@[i as int]@);
        }
        if let Some(s) = value_to_string(&fields[i]) {
            proof {
                lemma_views_push(r@, s);
            }
            r.push(s);
        }
        i += 1;
    }
    assert(all.take(i as int) =~= all);
    r
}

/// The response that the parts of a reply give.
pub fn response_from(http_code: u16, reply: Reply) -> (r: SubmitResponse)
    ensures
        r@ == response_of(http_code, reply@),
{
    let ids_reports = match &reply.ids_reports {
        Some(fields) => take_texts(fields),
        None => {
            let none: Vec<String> = Vec::new();
            assert(views(none@) =~= Seq::empty());
            none
        },
    };
    let username = match &reply.username {
        Some(field) => value_to_string(field),
        None => None,
    };
    let date_added = match &reply.date_added {
        Some(field) => value_to_i64(field),
        None => None,
    };
    SubmitResponse {
        status: take_text(reply.status, "error"),
        http_code,
        ids_reports,
        username,
        message: take_text(reply.message, ""),
        date_added,
        dry_run: false,
    }
}

/// The parts of the reply with the given body.
pub open spec fn reply_of(body: Seq<char>) -> ReplyView {
    ReplyView {
        status: json_field(body, "/status"@),
        message: json_field(body, "/message"@),
        ids_reports: json_list(body, "/data/ids_reports"@),
        username: json_field(body, "/data/username"@),
        date_added: json_field(body, "/data/date_added"@),
    }
}

/// Reads the reply to a submission.
pub fn parse_response(http_code: u16, body: &str) -> (r: Result<SubmitResponse, String>)
    ensures
        result_view(r) == match json_problem_of(body@) {
            Some(problem) => Err::<ResponseView, Seq<char>>(
                invalid_reply(http_code, problem, body@),
            ),
            None => Ok::<ResponseView, Seq<char>>(response_of(http_code, reply_of(body@))),
        },
{
    if let Some(problem) = json_problem(body) {
        return Err(invalid_reply_text(http_code, problem.as_str(), body));
    }
    let reply = Reply {
        status: look_up(body, "/status"),
        message: look_up(body, "/message"),
        ids_reports: look_up_list(body, "/data/ids_reports"),
        username: look_up(body, "/data/username"),
        date_added: look_up(body, "/data/date_added"),
    };
    Ok(response_from(http_code, reply))
}

/// The outcome of adding a trade to the journal.
#[derive(Debug, PartialEq)]
pub struct TradeResponse {
    pub status: String,
    pub http_code: u16,
    /// Id in the journal.
    pub id_user_trade: Option<i64>,
    pub message: String,
    pub dry_run: bool,
}

/// What a [`TradeResponse`] stands for.
pub struct TradeResponseView {
    pub status: Seq<char>,
    pub http_code: u16,
    pub id_user_trade: Option<i64>,
    pub message: Seq<char>,
    pub dry_run: bool,
}

impl View for TradeResponse {
    type V = TradeResponseView;

    open spec fn view(&self) -> TradeResponseView {
        TradeResponseView {
            status: self.status@,
            http_code: self.http_code,
            id_user_trade: self.id_user_trade,
            message: self.message@,
            dry_run: self.dry_run,
        }
    }
}

impl Clone for TradeResponse {
    fn clone(&self) -> (r: Self)
        ensures
            r@ == self@,
    {
        TradeResponse {
            status: self.status.clone(),
            http_code: self.http_code,
            id_user_trade: self.id_user_trade,
            message: self.message.clone(),
            dry_run: self.dry_run,
        }
    }
}

impl TradeResponseView {
    /// The trade was accepted, or was only prepared.
    pub open spec fn ok(self) -> bool {
        self.status == "ok"@ || self.dry_run
    }
}

impl TradeResponse {
    /// Whether the trade was accepted, or was only prepared.
    pub fn is_ok(&self) -> (r: bool)
        ensures
            r == self@.ok(),
    {
        same(self.status.as_str(), "ok") || self.dry_run
    }
}

/// The payload of a trade.
pub open spec fn trade_payload_of(entry: TradeView, is_production: bool) -> Seq<
    (Seq<char>, DatumView),
> {
    seq![
        ("is_production"@, DatumView::Integer(flag(is_production))),
        ("id_terminal"@, DatumView::Integer(entry.id_terminal as int)),
        ("id_commodity"@, DatumView::Integer(entry.id_commodity as int)),
        ("operation"@, DatumView::Text(entry.operation.name())),
        ("scu"@, DatumView::Integer(entry.scu as int)),
        ("price"@, DatumView::Real(entry.price_bits)),
    ]
}

/// Builds the payload of a trade.
pub fn build_trade_payload(entry: &TradeEntry, is_production: bool) -> (p: Payload)
    ensures
        p@ == trade_payload_of(entry@, is_production),
{
    let mut p = Payload { fields: Vec::new() };
    assert(p@ =~= Seq::empty());
    p.put(
        "is_production",
        Datum::Integer(
            if is_production {
                1
            } else {
                0
            },
        ),
    );
    p.put("id_terminal", Datum::Integer(entry.id_terminal as i64));
    p.put("id_commodity", Datum::Integer(entry.id_commodity as i64));
    p.put("operation", Datum::Text(entry.operation.as_str().to_owned()));
    p.put("scu", Datum::Integer(entry.scu as i64));
    p.put("price", Datum::Real(entry.price_bits));
    assert(p@ =~= trade_payload_of(entry@, is_production));
    p
}

/// What becomes of a trade: it is finished, or a request is to be sent.
#[derive(Debug)]
pub enum TradeSubmission {
    Finished(TradeResponse),
    Send(Request),
}

/// What a [`TradeSubmission`] stands for.
pub enum TradeSubmissionView {
    Finished(TradeResponseView),
    Send(RequestView),
}

impl View for TradeSubmission {
    type V = TradeSubmissionView;

    open spec fn view(&self) -> TradeSubmissionView {
        match self {
            TradeSubmission::Finished(r) => TradeSubmissionView::Finished(r@),
            TradeSubmission::Send(r) => TradeSubmissionView::Send(r@),
        }
    }
}

/// The request of a trade.
pub open spec fn trade_request(entry: TradeView, options: SubmitOptions) -> RequestView {
    let token = trim(without_prefix(trim(options.api_token@), "Bearer "@));
    RequestView {
        url: endpoint(options.base_url@, "/user_trades_add"@),
        headers: seq![
            ("secret-key"@, trim(options.secret_key@)),
            ("Authorization"@, "Bearer "@ + token),
            ("Content-Type"@, "application/json"@),
        ],
        payload: trade_payload_of(entry, options.is_production),
    }
}

/// What becomes of a trade.
pub open spec fn trade_submission(entry: TradeView, options: SubmitOptions) -> Result<
    TradeSubmissionView,
    Seq<char>,
> {
    if entry.id_terminal == 0 || entry.id_commodity == 0 {
        Err("cannot log trade: commodity and terminal must be selected"@)
    } else if options.dry_run {
        Ok(
            TradeSubmissionView::Finished(
                TradeResponseView {
                    status: "dry_run"@,
                    http_code: 0,
                    id_user_trade: None,
                    message: "Dry run: trade prepared, not sent"@,
                    dry_run: true,
                },
            ),
        )
    } else if trim(options.secret_key@).len() == 0 {
        Err("cannot log trade: UEX secret key not configured (Settings)"@)
    } else if trim(options.api_token@).len() == 0 {
        Err("cannot log trade: UEX application API token not set (Settings)"@)
    } else {
        Ok(TradeSubmissionView::Send(trade_request(entry, options)))
    }
}

/// Decides what becomes of a trade: an error, a response right away, or a request
/// to be sent, whose reply [`parse_trade_response`] reads.
pub fn submit_trade(entry: &TradeEntry, options: &SubmitOptions) -> (r: Result<
    TradeSubmission,
    String,
>)
    ensures
        result_view(r) == trade_submission(entry@, *options),
{
    if entry.id_terminal == 0 || entry.id_commodity == 0 {
        return Err("cannot log trade: commodity and terminal must be selected".to_owned());
    }
    if options.dry_run {
        return Ok(
            TradeSubmission::Finished(
                TradeResponse {
                    status: "dry_run".to_owned(),
                    http_code: 0,
                    id_user_trade: None,
                    message: "Dry run: trade prepared, not sent".to_owned(),
                    dry_run: true,
                },
            ),
        );
    }
    let key = trimmed_str(options.secret_key.as_str());
    if key.len() == 0 {
        return Err("cannot log trade: UEX secret key not configured (Settings)".to_owned());
    }
    let token = trimmed_str(options.api_token.as_str());
    if token.len() == 0 {
        return Err("cannot log trade: UEX application API token not set (Settings)".to_owned());
    }
    let token = strip_prefix(&token, &chars_of("Bearer "));
    let token = trimmed(&token);
    let mut headers: Vec<(&'static str, String)> = Vec::new();
    headers.push(("secret-key", string_of(&key)));
    headers.push(("Authorization", bearer(&token)));
    headers.push(("Content-Type", "application/json".to_owned()));
    let request = Request {
        url: endpoint_url(options.base_url.as_str(), "/user_trades_add"),
        headers,
        payload: build_trade_payload(entry, options.is_production),
    };
    assert(request@.headers =~= trade_request(entry@, *options).headers);
    Ok(TradeSubmission::Send(request))
}

/// The parts of a reply to a trade that are looked at.
#[derive(Debug)]
pub struct TradeReply {
    pub status: Option<Field>,
    pub message: Option<Field>,
    pub data: Option<Field>,
    /// The id, where the data is an object.
    pub id_in_data: Option<Field>,
}

/// What a [`TradeReply`] stands for.
pub struct TradeReplyView {
    pub status: Option<FieldView>,
    pub message: Option<FieldView>,
    pub data: Option<FieldView>,
    pub id_in_data: Option<FieldView>,
}

impl View for TradeReply {
    type V = TradeReplyView;

    open spec fn view(&self) -> TradeReplyView {
        TradeReplyView {
            status: field_view(self.status),
            message: field_view(self.message),
            data: field_view(self.data),
            id_in_data: field_view(self.id_in_data),
        }
    }
}

/// The response that a reply to a trade gives. The data is the id itself or an
/// object that holds it.
pub open spec fn trade_response_of(http_code: u16, reply: TradeReplyView) -> TradeResponseView {
    TradeResponseView {
        status: text_or(reply.status, "error"@),
        http_code,
        id_user_trade: match reply.data {
            Some(FieldView::Object) => match reply.id_in_data {
                Some(field) => field.as_integer(),
                None => None,
            },
            Some(field) => field.as_integer(),
            None => None,
        },
        message: text_or(reply.message, ""@),
        dry_run: false,
    }
}

/// The response that the parts of a reply to a trade give.
pub fn trade_response_from(http_code: u16, reply: TradeReply) -> (r: TradeResponse)
    ensures
        r@ == trade_response_of(http_code, reply@),
{
    let id_user_trade = match &reply.data {
        Some(Field::Object) => match &reply.id_in_data {
            Some(field) => value_to_i64(field),
            None => None,
        },
        Some(field) => value_to_i64(field),
        None => None,
    };
    TradeResponse {
        status: take_text(reply.status, "error"),
        http_code,
        id_user_trade,
        message: take_text(reply.message, ""),
        dry_run: false,
    }
}

/// The parts of the reply to a trade with the given body.
pub open spec fn trade_reply_of(body: Seq<char>) -> TradeReplyView {
    TradeReplyView {
        status: json_field(body, "/status"@),
        message: json_field(body, "/message"@),
        data: json_field(body, "/data"@),
        id_in_data: json_field(body, "/data/id_user_trade"@),
    }
}

/// Reads the reply to a trade.
pub fn parse_trade_response(http_code: u16, body: &str) -> (r: Result<TradeResponse, String>)
    ensures
        result_view(r) == match json_problem_of(body@) {
            Some(problem) => Err::<TradeResponseView, Seq<char>>(
                invalid_reply(http_code, problem, body@),
            ),
            None => Ok::<TradeResponseView, Seq<char>>(
                trade_response_of(http_code, trade_reply_of(body@)),
            ),
        },
{
    if let Some(problem) = json_problem(body) {
        return Err(invalid_reply_text(http_code, problem.as_str(), body));
    }
    let reply = TradeReply {
        status: look_up(body, "/status"),
        message: look_up(body, "/message"),
        data: look_up(body, "/data"),
        id_in_data: look_up(body, "/data/id_user_trade"),
    };
    Ok(trade_response_from(http_code, reply))
}

/// In dry-run mode nothing is ever sent, neither a report nor a trade.
pub proof fn law_dry_run_sends_nothing(
    e: ExtractionView,
    entry: TradeView,
    options: SubmitOptions,
    screenshot: Option<Seq<char>>,
)
    requires
        options.dry_run,
    ensures
        match submission(e, options, screenshot) {
            Ok(SubmissionView::Send(_)) => false,
            Ok(SubmissionView::Finished(r)) => r.ok() && r.dry_run,
            Err(_) => e.id_terminal is None,
        },
        match trade_submission(entry, options) {
            Ok(TradeSubmissionView::Send(_)) => false,
            Ok(TradeSubmissionView::Finished(r)) => r.ok() && r.dry_run,
            Err(_) => entry.id_terminal == 0 || entry.id_commodity == 0,
        },
{
}

/// What is sent names a terminal and carries the key.
pub proof fn law_requests_are_complete(
    e: ExtractionView,
    options: SubmitOptions,
    screenshot: Option<Seq<char>>,
)
    ensures
        match submission(e, options, screenshot) {
            Ok(SubmissionView::Send(request)) => {
                &&& !options.dry_run
                &&& e.id_terminal is Some
                &&& request.headers[0] == ("secret-key"@, trim(options.secret_key@))
                &&& request.headers[0].1.len() > 0
                &&& request.payload[0] == (
                    "id_terminal"@,
                    DatumView::Integer(e.id_terminal->0 as int),
                )
            },
            _ => true,
        },
{
}

/// The field with the given name is there, and has the given value wherever it is.
pub open spec fn says<T>(fields: Seq<(Seq<char>, T)>, name: Seq<char>, value: T) -> bool {
    &&& exists|i: int| 0 <= i < fields.len() && #[trigger] fields[i] == (name, value)
    &&& forall|i: int|
        0 <= i < fields.len() && (#[trigger] fields[i]).0 == name ==> fields[i].1 == value
}

/// There is no field with the given name.
pub open spec fn says_nothing_of<T>(fields: Seq<(Seq<char>, T)>, name: Seq<char>) -> bool {
    forall|i: int| 0 <= i < fields.len() ==> (#[trigger] fields[i]).0 != name
}

/// What the names of fields end with, for each type of terminal.
pub open spec fn field_ending(terminal_type: TerminalType) -> Seq<char> {
    match terminal_type {
        TerminalType::Buy => "buy"@,
        TerminalType::Sell => "sell"@,
    }
}

/// A row of a payload has the values of its commodity under their names, which differ only
/// in their ending between the two types: a price and a quantity are 0 where there is none,
/// and a status 1.
pub open spec fn states_row(
    fields: Seq<(Seq<char>, int)>,
    row: CommodityView,
    terminal_type: TerminalType,
) -> bool {
    let ending = field_ending(terminal_type);
    &&& fields.len() == 5
    &&& says(fields, "id_commodity"@, row.id_commodity->0 as int)
    &&& says(fields, "is_missing"@, 0)
    &&& match row.price {
        Some(price) => says(fields, "price_"@ + ending, price as int),
        None => says(fields, "price_"@ + ending, 0),
    }
    &&& match row.quantity_scu {
        Some(scu) => says(fields, "scu_"@ + ending, scu as int),
        None => says(fields, "scu_"@ + ending, 0),
    }
    &&& match row.status {
        Some(status) => says(fields, "status_"@ + ending, status as int),
        None => says(fields, "status_"@ + ending, 1),
    }
}

/// A field whose name no other one has.
proof fn lemma_says<T>(fields: Seq<(Seq<char>, T)>, k: int)
    requires
        0 <= k < fields.len(),
        forall|i: int| 0 <= i < fields.len() && i != k ==> (#[trigger] fields[i]).0 != fields[k].0,
    ensures
        says(fields, fields[k].0, fields[k].1),
{
    assert(fields[k] == (fields[k].0, fields[k].1));
}

proof fn lemma_row_names()
    ensures
        "id_commodity"@.len() == 12,
        "price_buy"@.len() == 9,
        "scu_buy"@.len() == 7,
        "status_buy"@.len() == 10,
        "is_missing"@.len() == 10,
        "price_sell"@.len() == 10,
        "scu_sell"@.len() == 8,
        "status_sell"@.len() == 11,
        "status_buy"@ != "is_missing"@,
        "price_sell"@ != "is_missing"@,
        "price_buy"@ == "price_"@ + "buy"@,
        "scu_buy"@ == "scu_"@ + "buy"@,
        "status_buy"@ == "status_"@ + "buy"@,
        "price_sell"@ == "price_"@ + "sell"@,
        "scu_sell"@ == "scu_"@ + "sell"@,
        "status_sell"@ == "status_"@ + "sell"@,
{
    reveal_strlit("id_commodity");
    reveal_strlit("price_buy");
    reveal_strlit("scu_buy");
    reveal_strlit("status_buy");
    reveal_strlit("is_missing");
    reveal_strlit("price_sell");
    reveal_strlit("scu_sell");
    reveal_strlit("status_sell");
    reveal_strlit("price_");
    reveal_strlit("scu_");
    reveal_strlit("status_");
    reveal_strlit("buy");
    reveal_strlit("sell");
    assert("status_buy"@[0] != "is_missing"@[0]);
    assert("price_sell"@[0] != "is_missing"@[0]);
}

/// A row that is sent has each value under its own name, for either type of terminal. So
/// a row of a sell terminal is that of a buy terminal with the names changed, and what
/// stands for the status is a status.
pub proof fn law_sent_row_names_its_values(row: CommodityView, terminal_type: TerminalType)
    requires
        row.id_commodity is Some,
    ensures
        states_row(sent_row(row, terminal_type), row, terminal_type),
{
    lemma_row_names();
    let fields = sent_row(row, terminal_type);
    lemma_says(fields, 0);
    lemma_says(fields, 1);
    lemma_says(fields, 2);
    lemma_says(fields, 3);
    lemma_says(fields, 4);
}

/// `positions` lists the rows that are sent, in their order: those of a commodity that are
/// selected and have a status, a price or a quantity.
pub open spec fn lists_sent(rows: Seq<CommodityView>, positions: Seq<int>) -> bool {
    &&& forall|i: int| #[trigger]
        positions.contains(i) <==> 0 <= i < rows.len() && rows[i].id_commodity is Some
            && rows[i].included && (rows[i].status is Some || rows[i].price is Some
            || rows[i].quantity_scu is Some)
    &&& forall|m: int, l: int|
        0 <= m < l < positions.len() ==> #[trigger] positions[m] < #[trigger] positions[l]
}

proof fn lemma_sent_rows(rows: Seq<CommodityView>, terminal_type: TerminalType) -> (positions: Seq<
    int,
>)
    ensures
        lists_sent(rows, positions),
        sent_rows(rows, terminal_type).len() == positions.len(),
        forall|m: int|
            0 <= m < positions.len() ==> states_row(
                #[trigger] sent_rows(rows, terminal_type)[m],
                rows[positions[m]],
                terminal_type,
            ),
    decreases rows.len(),
{
    if rows.len() == 0 {
        Seq::empty()
    } else {
        let shorter = rows.drop_last();
        let before = lemma_sent_rows(shorter, terminal_type);
        let last = rows.len() - 1;
        let sent = sent_rows(rows, terminal_type);
        let sent_before = sent_rows(shorter, terminal_type);
        assert forall|m: int| 0 <= m < before.len() implies 0 <= #[trigger] before[m] < last by {
            assert(before.contains(before[m]));
        }
        if is_sent(rows.last()) {
            law_sent_row_names_its_values(rows.last(), terminal_type);
            let positions = before.push(last);
            assert(positions[before.len() as int] == last);
            assert forall|i: int| #[trigger] positions.contains(i) <==> before.contains(i) || i
                == last by {
                if before.contains(i) {
                    let m = choose|m: int| 0 <= m < before.len() && before[m] == i;
                    assert(positions[m] == i);
                }
            }
            assert forall|m: int| 0 <= m < positions.len() implies states_row(
                #[trigger] sent[m],
                rows[positions[m]],
                terminal_type,
            ) by {
                if m < before.len() {
                    assert(sent[m] == sent_before[m]);
                    assert(rows[positions[m]] == shorter[before[m]]);
                }
            }
            positions
        } else {
            assert forall|m: int| 0 <= m < before.len() implies states_row(
                #[trigger] sent[m],
                rows[before[m]],
                terminal_type,
            ) by {
                assert(rows[before[m]] == shorter[before[m]]);
            }
            before
        }
    }
}

/// The rows of a payload are those of all commodities that are selected and have some
/// value, in their order, each with its values under their names.
pub proof fn law_payload_rows_are_the_selected_ones(
    rows: Seq<CommodityView>,
    terminal_type: TerminalType,
)
    ensures
        exists|positions: Seq<int>|
            {
                let sent = sent_rows(rows, terminal_type);
                &&& #[trigger] lists_sent(rows, positions)
                &&& sent.len() == positions.len() == sent_count(rows)
                &&& forall|m: int|
                    0 <= m < sent.len() ==> states_row(
                        #[trigger] sent[m],
                        rows[positions[m]],
                        terminal_type,
                    )
            },
{
    let positions = lemma_sent_rows(rows, terminal_type);
    law_count_matches_payload(rows, terminal_type);
    assert(lists_sent(rows, positions));
}

proof fn lemma_payload_names()
    ensures
        "id_terminal"@.len() == 11,
        "type"@.len() == 4,
        "is_production"@.len() == 13,
        "prices"@.len() == 6,
        "game_version"@.len() == 12,
        "date_added"@.len() == 10,
        "screenshot"@.len() == 10,
        "date_added"@ != "screenshot"@,
{
    reveal_strlit("id_terminal");
    reveal_strlit("type");
    reveal_strlit("is_production");
    reveal_strlit("prices");
    reveal_strlit("game_version");
    reveal_strlit("date_added");
    reveal_strlit("screenshot");
    assert("date_added"@[0] != "screenshot"@[0]);
}

/// A payload names the terminal, says that it is of commodities and whether it is for
/// production, and has the rows for the type of the terminal, selling where none is known.
/// A game version, a time and a screenshot are in it exactly where there are such.
pub proof fn law_payload_states_everything(
    e: ExtractionView,
    options: SubmitOptions,
    screenshot: Option<Seq<char>>,
)
    ensures
        ({
            let p = payload_of(e, options, screenshot);
            &&& match e.id_terminal {
                Some(id) => says(p, "id_terminal"@, DatumView::Integer(id as int)),
                None => says(p, "id_terminal"@, DatumView::Null),
            }
            &&& says(p, "type"@, DatumView::Text("commodity"@))
            &&& options.is_production ==> says(p, "is_production"@, DatumView::Integer(1))
            &&& !options.is_production ==> says(p, "is_production"@, DatumView::Integer(0))
            &&& match e.terminal_type {
                Some(TerminalType::Buy) => says(
                    p,
                    "prices"@,
                    DatumView::Rows(sent_rows(e.commodities, TerminalType::Buy)),
                ),
                _ => says(
                    p,
                    "prices"@,
                    DatumView::Rows(sent_rows(e.commodities, TerminalType::Sell)),
                ),
            }
            &&& match options.game_version {
                Some(version) => says(p, "game_version"@, DatumView::Text(version@)),
                None => says_nothing_of(p, "game_version"@),
            }
            &&& match e.captured_at {
                Some(t) => says(p, "date_added"@, DatumView::Integer(t as int)),
                None => says_nothing_of(p, "date_added"@),
            }
            &&& match screenshot {
                Some(s) => says(p, "screenshot"@, DatumView::Text(s)),
                None => says_nothing_of(p, "screenshot"@),
            }
        }),
{
    let p = payload_of(e, options, screenshot);
    lemma_payload_names();
    let version = if options.game_version is Some {
        1int
    } else {
        0int
    };
    let time = if e.captured_at is Some {
        1int
    } else {
        0int
    };
    let image = if screenshot is Some {
        1int
    } else {
        0int
    };
    assert(p.len() == 4 + version + time + image);
    assert(p[0].0 == "id_terminal"@);
    assert(p[1].0 == "type"@);
    assert(p[2].0 == "is_production"@);
    assert(p[3].0 == "prices"@);
    if version == 1 {
        assert(p[4].0 == "game_version"@);
    }
    if time == 1 {
        assert(p[4 + version].0 == "date_added"@);
    }
    if image == 1 {
        assert(p[4 + version + time].0 == "screenshot"@);
    }
    lemma_says(p, 0);
    lemma_says(p, 1);
    lemma_says(p, 2);
    lemma_says(p, 3);
    if version == 1 {
        lemma_says(p, 4);
    }
    if time == 1 {
        lemma_says(p, 4 + version);
    }
    if image == 1 {
        lemma_says(p, 4 + version + time);
    }
}

/// A request is sent exactly where a terminal is known, this is no dry run, and there is a
/// key and a token. It goes to the address of submissions, with the key and the payload.
pub proof fn law_submission_needs_everything(
    e: ExtractionView,
    options: SubmitOptions,
    screenshot: Option<Seq<char>>,
)
    ensures
        match submission(e, options, screenshot) {
            Ok(SubmissionView::Send(request)) => {
                &&& e.id_terminal is Some && !options.dry_run
                &&& trim(options.secret_key@).len() > 0 && trim(options.api_token@).len() > 0
                &&& request.payload == payload_of(e, options, screenshot)
                &&& request.url == without_trailing(options.base_url@, '/') + "/data_submit"@
                &&& says(request.headers, "secret-key"@, trim(options.secret_key@))
                &&& says(request.headers, "Content-Type"@, "application/json"@)
                &&& if bare_token(options.api_token@).len() > 0 {
                    says(
                        request.headers,
                        "Authorization"@,
                        "Bearer "@ + bare_token(options.api_token@),
                    )
                } else {
                    says_nothing_of(request.headers, "Authorization"@)
                }
            },
            Ok(SubmissionView::Finished(response)) => {
                &&& e.id_terminal is Some && options.dry_run
                &&& response.date_added == e.captured_at
                &&& response.ids_reports.len() == 0
                &&& response.username is None
                &&& response.http_code == 0
                &&& response.message == "Dry run: "@ + decimal(sent_count(e.commodities))
                    + " row(s) prepared, not submitted"@
            },
            Err(problem) => if e.id_terminal is None {
                problem == "cannot submit: terminal not identified"@
            } else if trim(options.secret_key@).len() == 0 {
                &&& !options.dry_run
                &&& problem == "cannot submit: UEX secret key not configured (Settings)"@
            } else {
                &&& !options.dry_run
                &&& trim(options.api_token@).len() == 0
                &&& starts_with(problem, "cannot submit: UEX application API token not set"@)
            },
        },
{
    reveal_strlit("secret-key");
    reveal_strlit("Content-Type");
    reveal_strlit("Authorization");
    reveal_strlit("cannot submit: UEX application API token not set");
    reveal_strlit(
        "cannot submit: UEX application API token not set — create an app at https://uexcorp.space/api/apps and paste its token in Settings",
    );
    assert(
    "cannot submit: UEX application API token not set — create an app at https://uexcorp.space/api/apps and paste its token in Settings"@.subrange(0, 48)
        =~= "cannot submit: UEX application API token not set"@);
    if let Ok(SubmissionView::Send(request)) = submission(e, options, screenshot) {
        let headers = request.headers;
        assert(headers[0].0 == "secret-key"@ && headers[1].0 == "Content-Type"@);
        assert(headers.len() > 2 ==> headers[2].0 == "Authorization"@ && headers.len() == 3);
        assert("secret-key"@.len() == 10 && "Authorization"@.len() == 13 && "Content-Type"@.len()
            == 12);
        lemma_says(headers, 0);
        lemma_says(headers, 1);
        if headers.len() > 2 {
            lemma_says(headers, 2);
        }
    }
}

/// A trade is sent exactly where its commodity and terminal are selected, this is no dry
/// run, and there is a key and a token; it goes to the address of trades.
pub proof fn law_trade_needs_everything(entry: TradeView, options: SubmitOptions)
    ensures
        match trade_submission(entry, options) {
            Ok(TradeSubmissionView::Send(request)) => {
                &&& entry.id_terminal != 0 && entry.id_commodity != 0 && !options.dry_run
                &&& trim(options.secret_key@).len() > 0 && trim(options.api_token@).len() > 0
                &&& request.payload == trade_payload_of(entry, options.is_production)
                &&& request.url == without_trailing(options.base_url@, '/') + "/user_trades_add"@
                &&& says(request.headers, "secret-key"@, trim(options.secret_key@))
                &&& says(request.headers, "Content-Type"@, "application/json"@)
                &&& says(
                    request.headers,
                    "Authorization"@,
                    "Bearer "@ + trim(without_prefix(trim(options.api_token@), "Bearer "@)),
                )
            },
            Ok(TradeSubmissionView::Finished(response)) => {
                &&& entry.id_terminal != 0 && entry.id_commodity != 0 && options.dry_run
                &&& response.id_user_trade is None
                &&& response.http_code == 0
            },
            Err(problem) => if entry.id_terminal == 0 || entry.id_commodity == 0 {
                problem == "cannot log trade: commodity and terminal must be selected"@
            } else if trim(options.secret_key@).len() == 0 {
                &&& !options.dry_run
                &&& problem == "cannot log trade: UEX secret key not configured (Settings)"@
            } else {
                &&& !options.dry_run
                &&& trim(options.api_token@).len() == 0
                &&& problem == "cannot log trade: UEX application API token not set (Settings)"@
            },
        },
{
    reveal_strlit("secret-key");
    reveal_strlit("Content-Type");
    reveal_strlit("Authorization");
    if let Ok(TradeSubmissionView::Send(request)) = trade_submission(entry, options) {
        let headers = request.headers;
        assert(headers[0].0 == "secret-key"@ && headers[1].0 == "Authorization"@ && headers[2].0
            == "Content-Type"@);
        assert("secret-key"@.len() == 10 && "Authorization"@.len() == 13 && "Content-Type"@.len()
            == 12);
        lemma_says(headers, 0);
        lemma_says(headers, 1);
        lemma_says(headers, 2);
    }
}

/// The payload of a trade has its values under their names.
pub proof fn law_trade_payload_names_its_values(entry: TradeView, is_production: bool)
    ensures
        ({
            let p = trade_payload_of(entry, is_production);
            &&& p.len() == 6
            &&& is_production ==> says(p, "is_production"@, DatumView::Integer(1))
            &&& !is_production ==> says(p, "is_production"@, DatumView::Integer(0))
            &&& says(p, "id_terminal"@, DatumView::Integer(entry.id_terminal as int))
            &&& says(p, "id_commodity"@, DatumView::Integer(entry.id_commodity as int))
            &&& says(
                p,
                "operation"@,
                DatumView::Text(
                    match entry.operation {
                        TradeOp::Buy => "buy"@,
                        TradeOp::Sell => "sell"@,
                    },
                ),
            )
            &&& says(p, "scu"@, DatumView::Integer(entry.scu as int))
            &&& says(p, "price"@, DatumView::Real(entry.price_bits))
        }),
{
    reveal_strlit("is_production");
    reveal_strlit("id_terminal");
    reveal_strlit("id_commodity");
    reveal_strlit("operation");
    reveal_strlit("scu");
    reveal_strlit("price");
    let p = trade_payload_of(entry, is_production);
    assert(p[0].0 == "is_production"@ && p[1].0 == "id_terminal"@ && p[2].0 == "id_commodity"@
        && p[3].0 == "operation"@ && p[4].0 == "scu"@ && p[5].0 == "price"@);
    assert("is_production"@.len() == 13 && "id_terminal"@.len() == 11 && "id_commodity"@.len()
        == 12 && "operation"@.len() == 9 && "scu"@.len() == 3 && "price"@.len() == 5);
}

/// A slash at the end of the base address makes no difference.
pub proof fn law_trailing_slash_does_not_count(base_url: Seq<char>, path: Seq<char>)
    ensures
        endpoint(base_url.push('/'), path) == endpoint(base_url, path),
        base_url.len() > 0 && base_url.last() != '/' ==> endpoint(base_url, path) == base_url
            + path,
{
    assert(base_url.push('/').drop_last() =~= base_url);
}

/// A token authorises the request whether or not it was pasted with the word in front.
pub proof fn law_token_is_sent_once(token: Seq<char>)
    requires
        token.len() > 0,
        trim(token) == token,
        !starts_with(token, "Bearer "@),
        !starts_with(token, "bearer "@),
    ensures
        bare_token(token) == token,
        trim("Bearer "@ + token) == "Bearer "@ + token ==> bare_token("Bearer "@ + token) == token,
{
    reveal_strlit("Bearer ");
    reveal_strlit("bearer ");
    let pasted = "Bearer "@ + token;
    assert(pasted.skip(7) =~= token);
    assert(pasted.subrange(0, 7) =~= "Bearer "@);
    assert(starts_with(pasted, "Bearer "@));
}

/// A reply counts as accepted exactly where its status is the text "ok"; and its numbers
/// are those of the reports, as far as they are texts or numbers, in their order.
pub proof fn law_only_ok_replies_are_accepted(http_code: u16, reply: ReplyView)
    ensures
        response_of(http_code, reply).ok() <==> reply.status == Some(FieldView::Text("ok"@)),
        response_of(http_code, reply).http_code == http_code,
        !response_of(http_code, reply).dry_run,
        reply.ids_reports is None ==> response_of(http_code, reply).ids_reports.len() == 0,
        match reply.message {
            Some(FieldView::Text(s)) => response_of(http_code, reply).message == s,
            _ => response_of(http_code, reply).message.len() == 0,
        },
        match reply.username {
            Some(FieldView::Text(s)) => response_of(http_code, reply).username == Some(s),
            Some(FieldView::Number(s, _)) => response_of(http_code, reply).username == Some(s),
            _ => response_of(http_code, reply).username is None,
        },
        match reply.date_added {
            Some(FieldView::Number(_, n)) => response_of(http_code, reply).date_added == n,
            Some(FieldView::Text(s)) => response_of(http_code, reply).date_added == i64_of(s),
            _ => response_of(http_code, reply).date_added is None,
        },
{
    reveal_strlit("ok");
    reveal_strlit("error");
    reveal_strlit("");
    assert("error"@.len() != "ok"@.len());
}

/// The texts of a list with one field more.
pub proof fn law_report_ids_keep_their_order(fields: Seq<FieldView>, field: FieldView)
    ensures
        texts_of(fields.push(field)) == match field {
            FieldView::Text(s) => texts_of(fields).push(s),
            FieldView::Number(s, _) => texts_of(fields).push(s),
            _ => texts_of(fields),
        },
        texts_of(Seq::empty()).len() == 0,
{
    assert(fields.push(field).drop_last() =~= fields);
}

/// A reply to a trade counts as accepted exactly where its status is the text "ok". Its id
/// is in the data itself or, where that is an object, in there; and it may be a number or
/// a numeral.
pub proof fn law_only_ok_trades_are_accepted(http_code: u16, reply: TradeReplyView)
    ensures
        ({
            let r = trade_response_of(http_code, reply);
            let holder = if reply.data == Some(FieldView::Object) {
                reply.id_in_data
            } else {
                reply.data
            };
            &&& r.ok() <==> reply.status == Some(FieldView::Text("ok"@))
            &&& r.http_code == http_code
            &&& !r.dry_run
            &&& match holder {
                Some(FieldView::Number(_, n)) => r.id_user_trade == n,
                Some(FieldView::Text(s)) => r.id_user_trade == i64_of(s),
                _ => r.id_user_trade is None,
            }
            &&& match reply.message {
                Some(FieldView::Text(s)) => r.message == s,
                _ => r.message.len() == 0,
            }
        }),
{
    reveal_strlit("ok");
    reveal_strlit("error");
    reveal_strlit("");
    assert("error"@.len() != "ok"@.len());
}

} // verus!
