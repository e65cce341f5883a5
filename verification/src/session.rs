//! The state of the program between events: what awaits review, what is on its way,
//! and what there is to tell.

use vstd::prelude::*;

use crate::api::{ResponseView, SubmitOptions, SubmitResponse, TradeResponse, TradeResponseView};
use crate::clock::local_id;
use crate::config::Config;
use crate::labels::{
    debug_list_of, report_message, report_message_of, trade_message, trade_message_of,
};
use crate::model::{lemma_views_push, text_of, views, Extraction, ExtractionView};
use crate::number::{decimal, push_decimal};
use crate::ocr::OcrConfig;
use crate::paths::{join, joined_path};
use crate::store::{
    has_report, report_from, report_of, report_position, reports_with, ReportStore, ReportView,
    SubmittedReport,
};
use crate::text::{chars_of, push_text, same, string_of, trim, trimmed};
use crate::trade::{
    entry_of, entry_position, first_entry, has_entry, lemma_entry_position, new_entry,
    TradeEntry, TradeLog, TradeOp, TradeSync, TradeView,
};

verus! {

/// How many lines the activity log keeps.
pub const MAX_LINES: usize = 200;

/// How often recognition is tried before it is given up.
pub const OCR_ATTEMPTS: u32 = 6;

/// The state of the program.
pub struct Session {
    /// Extractions that await review.
    pub pending: Vec<Extraction>,
    /// The terminal that was identified last.
    pub last_terminal: Option<(u32, String)>,
    /// Screenshots that were taken up.
    pub processed: Vec<String>,
    /// Recognition jobs that run.
    pub inflight: usize,
    /// Screenshots whose reports are being submitted.
    pub submitting: Vec<String>,
    /// Submissions that run.
    pub inflight_sub: usize,
    /// The activity log, the newest line first.
    pub logs: Vec<String>,
    /// The last message, and whether it tells of an error.
    pub toast: Option<(String, bool)>,
    pub reports: ReportStore,
    pub trades: TradeLog,
    /// The report that is being corrected, and its editable copy.
    pub editing: Option<(String, Extraction)>,
}

/// What a [`Session`] stands for.
pub struct SessionView {
    pub pending: Seq<ExtractionView>,
    pub last_terminal: Option<(u32, Seq<char>)>,
    pub processed: Seq<Seq<char>>,
    pub inflight: nat,
    pub submitting: Seq<Seq<char>>,
    pub inflight_sub: nat,
    pub logs: Seq<Seq<char>>,
    pub toast: Option<(Seq<char>, bool)>,
    pub reports: Seq<ReportView>,
    pub trades: Seq<TradeView>,
    pub editing: Option<(Seq<char>, ExtractionView)>,
}

impl View for Session {
    type V = SessionView;

    open spec fn view(&self) -> SessionView {
        SessionView {
            pending: views(self.pending@),
            last_terminal: match self.last_terminal {
                Some((id, name)) => Some((id, name@)),
                None => None,
            },
            processed: views(self.processed@),
            inflight: self.inflight as nat,
            submitting: views(self.submitting@),
            inflight_sub: self.inflight_sub as nat,
            logs: views(self.logs@),
            toast: match self.toast {
                Some((text, error)) => Some((text@, error)),
                None => None,
            },
            reports: self.reports@,
            trades: self.trades@,
            editing: match self.editing {
                Some((id, e)) => Some((id@, e@)),
                None => None,
            },
        }
    }
}

/// The activity log with one more line: the newest lines, as many as it keeps.
pub open spec fn logged(logs: Seq<Seq<char>>, line: Seq<char>) -> Seq<Seq<char>> {
    let all = seq![line] + logs;
    if all.len() > MAX_LINES {
        all.take(MAX_LINES as int)
    } else {
        all
    }
}

/// One less, if there is any.
pub open spec fn one_less(n: nat) -> nat {
    if n > 0 {
        (n - 1) as nat
    } else {
        0
    }
}

impl SessionView {
    /// With one more line in the activity log.
    pub open spec fn noting(self, line: Seq<char>) -> SessionView {
        SessionView { logs: logged(self.logs, line), ..self }
    }

    /// With a message.
    pub open spec fn telling(self, text: Seq<char>, error: bool) -> SessionView {
        SessionView { toast: Some((text, error)), ..self }
    }

    /// An extraction without a terminal inherits the last one that was identified.
    pub open spec fn carried_over(self, e: ExtractionView) -> ExtractionView {
        match (e.id_terminal, self.last_terminal) {
            (None, Some((id, name))) => ExtractionView {
                id_terminal: Some(id),
                terminal_name: Some(name),
                terminal_confidence: 0,
                ..e
            },
            _ => e,
        }
    }

    /// The terminal to be inherited from now on.
    pub open spec fn terminal_after(self, e: ExtractionView) -> Option<(u32, Seq<char>)> {
        match (e.id_terminal, e.terminal_name) {
            (Some(id), Some(name)) => Some((id, name)),
            _ => self.last_terminal,
        }
    }

    /// After an extraction came in.
    pub open spec fn received(self, e: ExtractionView) -> SessionView {
        let kept = self.carried_over(e);
        let name = match kept.terminal_name {
            Some(name) => name,
            None => "unknown"@,
        };
        (SessionView {
            inflight: one_less(self.inflight),
            last_terminal: self.terminal_after(e),
            pending: self.pending.push(kept),
            ..self
        }).noting("Extracted "@ + decimal(e.commodities.len()) + " commodities @ "@ + name)
    }

    /// After a screenshot was taken up.
    pub open spec fn taking_up(self, key: Seq<char>, name: Option<Seq<char>>) -> SessionView {
        (SessionView {
            processed: self.processed.push(key),
            inflight: self.inflight + 1,
            ..self
        }).noting(
            "Processing "@ + (match name {
                Some(name) => name,
                None => key,
            }),
        )
    }

    /// After the submission of a report was begun.
    pub open spec fn beginning(self, key: Seq<char>) -> SessionView {
        SessionView {
            submitting: self.submitting.push(key),
            inflight_sub: self.inflight_sub + 1,
            ..self
        }
    }

    /// After the response to a report came in and the report was saved.
    pub open spec fn reported(
        self,
        key: Seq<char>,
        response: ResponseView,
        report: ReportView,
        message: Seq<char>,
    ) -> SessionView {
        (SessionView {
            inflight_sub: one_less(self.inflight_sub),
            submitting: without_text(self.submitting, key),
            reports: reports_with(self.reports, report),
            pending: if response.ok() {
                without_screenshot(self.pending, key)
            } else {
                self.pending
            },
            ..self
        }).noting(message).telling(message, !response.ok())
    }

    /// After a report could not be submitted.
    pub open spec fn unreported(self, key: Seq<char>, problem: Seq<char>) -> SessionView {
        let message = "Submit error: "@ + problem;
        (SessionView {
            inflight_sub: one_less(self.inflight_sub),
            submitting: without_text(self.submitting, key),
            ..self
        }).noting(message).telling(message, true)
    }

    /// After the response to a trade came in.
    pub open spec fn traded(self, id: Seq<char>, response: TradeResponseView) -> SessionView {
        (SessionView {
            inflight_sub: one_less(self.inflight_sub),
            trades: if has_entry(self.trades, id) {
                let k = entry_position(self.trades, id);
                self.trades.update(k, responded(self.trades[k], response))
            } else {
                self.trades
            },
            ..self
        }).telling(trade_message_of(response), !response.ok())
    }

    /// After a trade could not be sent.
    pub open spec fn untraded(self, id: Seq<char>, problem: Seq<char>) -> SessionView {
        (SessionView {
            inflight_sub: one_less(self.inflight_sub),
            trades: if has_entry(self.trades, id) {
                let k = entry_position(self.trades, id);
                self.trades.update(
                    k,
                    TradeView {
                        sync: TradeSync::Local,
                        status_text: problem,
                        ..self.trades[k]
                    },
                )
            } else {
                self.trades
            },
            ..self
        }).telling("Trade not synced: "@ + problem, true)
    }
}

/// The texts without those that are the given one.
pub open spec fn without_text(texts: Seq<Seq<char>>, text: Seq<char>) -> Seq<Seq<char>>
    decreases texts.len(),
{
    if texts.len() == 0 {
        texts
    } else if texts.last() == text {
        without_text(texts.drop_last(), text)
    } else {
        without_text(texts.drop_last(), text).push(texts.last())
    }
}

/// The extractions without those of a screenshot.
pub open spec fn without_screenshot(pending: Seq<ExtractionView>, key: Seq<char>) -> Seq<
    ExtractionView,
>
    decreases pending.len(),
{
    if pending.len() == 0 {
        pending
    } else if pending.last().screenshot == key {
        without_screenshot(pending.drop_last(), key)
    } else {
        without_screenshot(pending.drop_last(), key).push(pending.last())
    }
}

/// An entry after a response.
pub open spec fn responded(entry: TradeView, response: TradeResponseView) -> TradeView {
    TradeView {
        sync: if response.dry_run {
            TradeSync::DryRun
        } else if response.ok() {
            TradeSync::Synced
        } else {
            TradeSync::Failed
        },
        uex_id: response.id_user_trade,
        status_text: if response.message.len() == 0 {
            response.status
        } else {
            response.status + " — "@ + response.message
        },
        ..entry
    }
}

/// Applies a response to an entry.
pub fn apply_trade_response(entry: &mut TradeEntry, response: &TradeResponse)
    ensures
        final(entry)@ == responded(old(entry)@, response@),
{
    entry.sync = if response.dry_run {
        TradeSync::DryRun
    } else if response.is_ok() {
        TradeSync::Synced
    } else {
        TradeSync::Failed
    };
    entry.uex_id = response.id_user_trade;
    entry.status_text = if chars_of(response.message.as_str()).len() == 0 {
        response.status.clone()
    } else {
        let mut v = chars_of(response.status.as_str());
        push_text(&mut v, " — ");
        push_text(&mut v, response.message.as_str());
        string_of(&v)
    };
}

/// Whether a text is in a list.
fn holds(texts: &Vec<String>, text: &str) -> (r: bool)
    ensures
        r == views(texts@).contains(text@),
{
    let mut i: usize = 0;
    while i < texts.len()
        invariant
            i <= texts.len(),
            forall|j: int| 0 <= j < i ==> #[trigger] views(texts@)[j] != text@,
        decreases texts.len() - i,
    {
        if same(texts[i].as_str(), text) {
            assert(views(texts@)[i as int] == text@);
            return true;
        }
        i += 1;
    }
    false
}

/// Removes a text from a list.
fn drop_text(texts: &mut Vec<String>, text: &str)
    ensures
        views(final(texts)@) == without_text(views(old(texts)@), text@),
{
    let ghost all = views(texts@);
    let mut kept: Vec<String> = Vec::new();
    let mut i: usize = 0;
    assert(views(kept@) =~= Seq::empty());
    while i < texts.len()
        invariant
            i <= texts.len(),
            all == views(texts@),
            views(kept@) == without_text(all.take(i as int), text@),
        decreases texts.len() - i,
    {
        proof {
            assert(all.take(i + 1).drop_last() =~= all.take(i as int));
            assert(all.take(i + 1).last() == texts@[i as int]@);
        }
        if !same(texts[i].as_str(), text) {
            let item = texts[i].clone();
            proof {
                lemma_views_push(kept@, item);
            }
            kept.push(item);
        }
        i += 1;
    }
    assert(all.take(i as int) =~= all);
    *texts = kept;
}

/// Removes the extractions of a screenshot.
fn drop_screenshot(pending: &mut Vec<Extraction>, key: &str)
    ensures
        views(final(pending)@) == without_screenshot(views(old(pending)@), key@),
{
    let ghost all = views(pending@);
    let mut kept: Vec<Extraction> = Vec::new();
    let mut i: usize = 0;
    assert(views(kept@) =~= Seq::empty());
    while i < pending.len()
        invariant
            i <= pending.len(),
            all == views(pending@),
            views(kept@) == without_screenshot(all.take(i as int), key@),
        decreases pending.len() - i,
    {
        proof {
            assert(all.take(i + 1).drop_last() =~= all.take(i as int));
            assert(all.take(i + 1).last() == pending@[i as int]@);
        }
        if !same(pending[i].screenshot.as_str(), key) {
            let item = pending[i].clone();
            proof {
                lemma_views_push(kept@, item);
            }
            kept.push(item);
        }
        i += 1;
    }
    assert(all.take(i as int) =~= all);
    *pending = kept;
}

fn message(start: &str, rest: &str) -> (r: String)
    ensures
        r@ == start@ + rest@,
{
    let mut v = chars_of(start);
    push_text(&mut v, rest);
    string_of(&v)
}

impl Session {
    /// The state at the start, with what was stored before.
    pub fn new(pending: Vec<Extraction>, reports: ReportStore, trades: TradeLog) -> (r: Session)
        ensures
            r@ == (SessionView {
                pending: views(pending@),
                last_terminal: None,
                processed: Seq::empty(),
                inflight: 0,
                submitting: Seq::empty(),
                inflight_sub: 0,
                logs: Seq::empty(),
                toast: None,
                reports: reports@,
                trades: trades@,
                editing: None,
            }),
    {
        let r = Session {
            pending,
            last_terminal: None,
            processed: Vec::new(),
            inflight: 0,
            submitting: Vec::new(),
            inflight_sub: 0,
            logs: Vec::new(),
            toast: None,
            reports,
            trades,
            editing: None,
        };
        assert(r@.processed =~= Seq::empty());
        assert(r@.submitting =~= Seq::empty());
        assert(r@.logs =~= Seq::empty());
        r
    }

    /// Adds a line to the activity log.
    pub fn note(&mut self, line: &str)
        ensures
            final(self)@ == old(self)@.noting(line@),
    {
        let ghost before = views(self.logs@);
        let item = line.to_owned();
        self.logs.insert(0, item);
        assert(views(self.logs@) =~= seq![line@] + before);
        if self.logs.len() > MAX_LINES {
            self.logs.truncate(MAX_LINES);
            assert(views(self.logs@) =~= (seq![line@] + before).take(MAX_LINES as int));
        }
    }

    /// Shows a message.
    pub fn tell(&mut self, text: &str, error: bool)
        ensures
            final(self)@ == old(self)@.telling(text@, error),
    {
        self.toast = Some((text.to_owned(), error));
    }

    /// Takes up a screenshot, given its path and its file name. Returns whether
    /// recognition is to be started: a screenshot is taken up only once.
    pub fn take_up(&mut self, key: &str, name: &Option<String>) -> (start: bool)
        requires
            old(self).inflight < usize::MAX,
        ensures
            start == !old(self)@.processed.contains(key@),
            final(self)@ == if start {
                old(self)@.taking_up(key@, text_of(*name))
            } else {
                old(self)@
            },
    {
        if holds(&self.processed, key) {
            return false;
        }
        let item = key.to_owned();
        proof {
            lemma_views_push(self.processed@, item);
        }
        self.processed.push(item);
        self.inflight = self.inflight + 1;
        let line = match name {
            Some(name) => message("Processing ", name.as_str()),
            None => message("Processing ", key),
        };
        self.note(line.as_str());
        true
    }

    /// Receives an extraction. One that shows no terminal, as when a list was
    /// scrolled on, inherits the terminal that was identified last.
    pub fn receive(&mut self, e: Extraction)
        ensures
            final(self)@ == old(self)@.received(e@),
    {
        let mut e = e;
        if self.inflight > 0 {
            self.inflight = self.inflight - 1;
        }
        if e.id_terminal.is_none() {
            if let Some((id, name)) = &self.last_terminal {
                e.id_terminal = Some(*id);
                e.terminal_name = Some(name.clone());
                e.terminal_confidence = 0;
            }
        } else if let Some(id) = e.id_terminal {
            if let Some(name) = &e.terminal_name {
                self.last_terminal = Some((id, name.clone()));
            }
        }
        let mut v = chars_of("Extracted ");
        push_decimal(&mut v, e.commodities.len() as u64);
        push_text(&mut v, " commodities @ ");
        match &e.terminal_name {
            Some(name) => push_text(&mut v, name.as_str()),
            None => push_text(&mut v, "unknown"),
        }
        proof {
            lemma_views_push(self.pending@, e);
        }
        self.pending.push(e);
        let line = string_of(&v);
        self.note(line.as_str());
    }

    /// Learns that recognition of a screenshot failed.
    pub fn recognition_failed(&mut self, problem: &str)
        ensures
            final(self)@ == (SessionView {
                inflight: one_less(old(self)@.inflight),
                ..old(self)@
            }).noting("OCR failed: "@ + problem@),
    {
        if self.inflight > 0 {
            self.inflight = self.inflight - 1;
        }
        let line = message("OCR failed: ", problem);
        self.note(line.as_str());
    }

    /// Begins the submission of the report of a screenshot. Returns whether it is
    /// to be sent: a report that is on its way is not sent again.
    pub fn begin_report(&mut self, key: &str) -> (start: bool)
        requires
            old(self).inflight_sub < usize::MAX,
        ensures
            start == !old(self)@.submitting.contains(key@),
            final(self)@ == if start {
                old(self)@.beginning(key@)
            } else {
                old(self)@
            },
    {
        if holds(&self.submitting, key) {
            return false;
        }
        let item = key.to_owned();
        proof {
            lemma_views_push(self.submitting@, item);
        }
        self.submitting.push(item);
        self.inflight_sub = self.inflight_sub + 1;
        true
    }

    /// Saves the report that a response belongs to, and takes the extraction off
    /// the list where the response is good. Returns whether the screenshot is to be
    /// deleted.
    pub fn apply_report(
        &mut self,
        key: &str,
        e: &Extraction,
        response: &SubmitResponse,
        report: SubmittedReport,
        delete_after_send: bool,
    ) -> (delete: bool)
        ensures
            final(self)@ == old(self)@.reported(
                key@,
                response@,
                report@,
                report_message_of(e@, response@, debug_list_of(response@.ids_reports)),
            ),
            delete == (response@.ok() && !response@.dry_run && delete_after_send),
            delete == deletes_screenshot(response@, delete_after_send),
    {
        if self.inflight_sub > 0 {
            self.inflight_sub = self.inflight_sub - 1;
        }
        drop_text(&mut self.submitting, key);
        let ok = response.is_ok();
        let text = report_message(e, response);
        self.reports.add(report);
        if ok {
            drop_screenshot(&mut self.pending, key);
        }
        self.note(text.as_str());
        self.tell(text.as_str(), !ok);
        ok && !response.dry_run && delete_after_send
    }

    /// Learns what became of a submitted report. `n` is the running number for the
    /// id of the saved report. Returns whether the screenshot is to be deleted.
    pub fn on_report_result(
        &mut self,
        key: &str,
        e: &Extraction,
        supersedes: Option<String>,
        result: Result<SubmitResponse, String>,
        delete_after_send: bool,
        n: u64,
    ) -> (delete: bool)
        ensures
            match result {
                Ok(response) => {
                    &&& exists|millis: i64, now: i64|
                        final(self)@ == old(self)@.reported(
                            key@,
                            response@,
                            #[trigger] report_of(
                                e@,
                                response@,
                                text_of(supersedes),
                                local_id('r', millis as int, n as nat),
                                now,
                            ),
                            report_message_of(
                                e@,
                                response@,
                                debug_list_of(response@.ids_reports),
                            ),
                        )
                    &&& delete == (response@.ok() && !response@.dry_run && delete_after_send)
                    &&& delete == deletes_screenshot(response@, delete_after_send)
                },
                Err(problem) => final(self)@ == old(self)@.unreported(key@, problem@) && !delete,
            },
    {
        match result {
            Ok(response) => {
                let report = report_from(e, &response, supersedes, n);
                self.apply_report(key, e, &response, report, delete_after_send)
            },
            Err(problem) => {
                if self.inflight_sub > 0 {
                    self.inflight_sub = self.inflight_sub - 1;
                }
                drop_text(&mut self.submitting, key);
                let text = message("Submit error: ", problem.as_str());
                self.note(text.as_str());
                self.tell(text.as_str(), true);
                false
            },
        }
    }

    /// Learns what became of a submitted trade.
    pub fn on_trade_result(&mut self, id: &str, result: &Result<TradeResponse, String>)
        ensures
            final(self)@ == match *result {
                Ok(response) => old(self)@.traded(id@, response@),
                Err(problem) => old(self)@.untraded(id@, problem@),
            },
    {
        if self.inflight_sub > 0 {
            self.inflight_sub = self.inflight_sub - 1;
        }
        let ghost before = self.trades@;
        match result {
            Ok(response) => {
                if let Some(entry) = self.trades.get_mut(id) {
                    apply_trade_response(entry, response);
                }
                proof {
                    lemma_changed(before, id@);
                }
                let text = trade_message(response);
                self.tell(text.as_str(), !response.is_ok());
            },
            Err(problem) => {
                if let Some(entry) = self.trades.get_mut(id) {
                    entry.sync = TradeSync::Local;
                    entry.status_text = problem.clone();
                }
                proof {
                    lemma_changed(before, id@);
                }
                let text = message("Trade not synced: ", problem.as_str());
                self.tell(text.as_str(), true);
            },
        }
    }
}

/// The first entry with an id is the one at its position.
proof fn lemma_changed(entries: Seq<TradeView>, id: Seq<char>)
    ensures
        forall|k: int| #[trigger] crate::trade::first_entry(entries, id, k) ==> has_entry(
            entries,
            id,
        ) && entry_position(entries, id) == k,
{
    assert forall|k: int| #[trigger] crate::trade::first_entry(entries, id, k) implies has_entry(
        entries,
        id,
    ) && entry_position(entries, id) == k by {
        lemma_entry_position(entries, id, k);
        assert(entries[k].id == id);
    }
}

/// How many extractions can be submitted.
pub open spec fn ready_count(pending: Seq<ExtractionView>) -> nat
    decreases pending.len(),
{
    if pending.len() == 0 {
        0
    } else {
        ready_count(pending.drop_last()) + if pending.last().submittable() {
            1nat
        } else {
            0nat
        }
    }
}

/// The extractions that can be submitted and are not on their way.
pub open spec fn batch_of(pending: Seq<ExtractionView>, submitting: Seq<Seq<char>>) -> Seq<
    ExtractionView,
>
    decreases pending.len(),
{
    if pending.len() == 0 {
        pending
    } else {
        let before = batch_of(pending.drop_last(), submitting);
        let e = pending.last();
        if e.submittable() && !submitting.contains(e.screenshot) {
            before.push(e)
        } else {
            before
        }
    }
}

/// What a trade form holds.
#[derive(Debug)]
pub struct TradeForm {
    pub operation: TradeOp,
    /// Id and name of the commodity.
    pub commodity: Option<(u32, String)>,
    /// Id, name and star system of the terminal.
    pub terminal: Option<(u32, String, String)>,
    pub scu: i64,
    /// Price per SCU, as the bits of a double-precision number.
    pub price_bits: u64,
    /// Whether the price is above 0.
    pub price_is_positive: bool,
}

/// What is missing in a trade form.
pub open spec fn form_problem_of(form: TradeForm) -> Option<Seq<char>> {
    if form.commodity is None {
        Some("Pick a commodity first"@)
    } else if form.terminal is None {
        Some("Pick a terminal first"@)
    } else if form.scu <= 0 || !form.price_is_positive {
        Some("Enter SCU and price"@)
    } else {
        None
    }
}

/// The entry that a complete form gives: it is on its way at once.
pub open spec fn form_entry(form: TradeForm, id: Seq<char>, created_at: i64) -> TradeView {
    let (id_commodity, commodity_name) = form.commodity->0;
    let (id_terminal, terminal_name, system) = form.terminal->0;
    TradeView {
        sync: TradeSync::Pending,
        ..entry_of(
            id,
            form.operation,
            id_commodity,
            commodity_name@,
            id_terminal,
            terminal_name@,
            system@,
            form.scu as u32,
            form.price_bits,
            created_at,
        )
    }
}

impl Session {
    /// How many of the pending extractions can be submitted.
    pub fn ready(&self) -> (n: usize)
        ensures
            n == ready_count(self@.pending),
    {
        let ghost all = views(self.pending@);
        let mut n: usize = 0;
        let mut i: usize = 0;
        while i < self.pending.len()
            invariant
                i <= self.pending.len(),
                all == views(self.pending@),
                n == ready_count(all.take(i as int)),
                n <= i,
            decreases self.pending.len() - i,
        {
            proof {
                assert(all.take(i + 1).drop_last() =~= all.take(i as int));
                assert(all.take(i + 1).last() == self.pending@[i as int]@);
            }
            if self.pending[i].is_submittable() {
                n += 1;
            }
            i += 1;
        }
        assert(all.take(i as int) =~= all);
        n
    }

    /// The extractions to be sent together, and a line in the activity log. The
    /// caller begins each of them ([`Session::begin_report`]).
    pub fn send_all(&mut self) -> (batch: Vec<Extraction>)
        ensures
            views(batch@) == batch_of(old(self)@.pending, old(self)@.submitting),
            final(self)@ == old(self)@.noting(
                "Send All: submitting "@ + decimal(batch@.len()) + " in background"@,
            ),
    {
        let ghost all = views(self.pending@);
        let mut batch: Vec<Extraction> = Vec::new();
        let mut i: usize = 0;
        assert(views(batch@) =~= Seq::empty());
        while i < self.pending.len()
            invariant
                i <= self.pending.len(),
                all == views(self.pending@),
                views(batch@) == batch_of(all.take(i as int), views(self.submitting@)),
            decreases self.pending.len() - i,
        {
            proof {
                assert(all.take(i + 1).drop_last() =~= all.take(i as int));
                assert(all.take(i + 1).last() == self.pending@[i as int]@);
            }
            if self.pending[i].is_submittable() && !holds(
                &self.submitting,
                self.pending[i].screenshot.as_str(),
            ) {
                let e = self.pending[i].clone();
                proof {
                    lemma_views_push(batch@, e);
                }
                batch.push(e);
            }
            i += 1;
        }
        assert(all.take(i as int) =~= all);
        let mut v = chars_of("Send All: submitting ");
        push_decimal(&mut v, batch.len() as u64);
        push_text(&mut v, " in background");
        let line = string_of(&v);
        self.note(line.as_str());
        batch
    }

    /// Takes an extraction off the list, where it is still there.
    pub fn discard(&mut self, i: usize)
        ensures
            final(self)@ == (SessionView {
                pending: if i < old(self)@.pending.len() {
                    old(self)@.pending.remove(i as int)
                } else {
                    old(self)@.pending
                },
                ..old(self)@
            }),
    {
        let ghost before = views(self.pending@);
        if i < self.pending.len() {
            self.pending.remove(i);
            assert(views(self.pending@) =~= before.remove(i as int));
        }
    }

    /// Opens a saved report for correction, where there is one with the id.
    pub fn open_report(&mut self, id: &str)
        ensures
            final(self)@ == if has_report(old(self)@.reports, id@) {
                SessionView {
                    editing: Some(
                        (
                            id@,
                            old(self)@.reports[report_position(
                                old(self)@.reports,
                                id@,
                            )].extraction(),
                        ),
                    ),
                    toast: None,
                    ..old(self)@
                }
            } else {
                old(self)@
            },
    {
        let copy = match self.reports.get(id) {
            Some(report) => Some(report.to_extraction()),
            None => None,
        };
        if let Some(e) = copy {
            self.editing = Some((id.to_owned(), e));
            self.toast = None;
        }
    }

    /// What the status bar says: the last message and whether it tells of an error,
    /// else the newest line of the activity log, else that all is ready.
    pub fn status_line(&self) -> (r: (String, Option<bool>))
        ensures
            match self@.toast {
                Some((text, error)) => r.0@ == text && r.1 == Some(error),
                None => r.1 is None && r.0@ == if self@.logs.len() > 0 {
                    self@.logs[0]
                } else {
                    "Ready."@
                },
            },
    {
        match &self.toast {
            Some((text, error)) => (text.clone(), Some(*error)),
            None => {
                if self.logs.len() > 0 {
                    (self.logs[0].clone(), None)
                } else {
                    ("Ready.".to_owned(), None)
                }
            },
        }
    }

    /// Logs the trade of a form. Returns the entry to be sent, where the form is
    /// complete; otherwise says what is missing. `n` is the running number for the
    /// id of the entry.
    pub fn add_trade_from_form(&mut self, form: &TradeForm, created_at: i64, n: u64) -> (r: Option<
        TradeEntry,
    >)
        requires
            old(self).inflight_sub < usize::MAX,
        ensures
            match form_problem_of(*form) {
                Some(problem) => r is None && final(self)@ == old(self)@.telling(problem, true),
                None => r is Some && exists|millis: i64|
                    r->0@ == form_entry(
                        *form,
                        #[trigger] local_id('t', millis as int, n as nat),
                        created_at,
                    ) && final(self)@ == (SessionView {
                        trades: old(self)@.trades.push(r->0@),
                        inflight_sub: old(self)@.inflight_sub + 1,
                        ..old(self)@
                    }),
            },
    {
        let (id_commodity, commodity_name) = match &form.commodity {
            Some((id, name)) => (*id, name.as_str()),
            None => {
                self.tell("Pick a commodity first", true);
                return None;
            },
        };
        let (id_terminal, terminal_name, system) = match &form.terminal {
            Some((id, name, system)) => (*id, name.as_str(), system.as_str()),
            None => {
                self.tell("Pick a terminal first", true);
                return None;
            },
        };
        if form.scu <= 0 || !form.price_is_positive {
            self.tell("Enter SCU and price", true);
            return None;
        }
        let mut entry = new_entry(
            form.operation,
            id_commodity,
            commodity_name,
            id_terminal,
            terminal_name,
            system,
            form.scu as u32,
            form.price_bits,
            created_at,
            n,
        );
        entry.sync = TradeSync::Pending;
        let copy = entry.clone();
        self.trades.add(entry);
        self.inflight_sub = self.inflight_sub + 1;
        Some(copy)
    }

    /// Sends an entry that was logged before. Returns the entry to be sent.
    pub fn sync_trade(&mut self, id: &str) -> (r: Option<TradeEntry>)
        requires
            old(self).inflight_sub < usize::MAX,
        ensures
            if has_entry(old(self)@.trades, id@) {
                let k = entry_position(old(self)@.trades, id@);
                let entry = TradeView { sync: TradeSync::Pending, ..old(self)@.trades[k] };
                &&& r is Some
                &&& r->0@ == entry
                &&& final(self)@ == (SessionView {
                    trades: old(self)@.trades.update(k, entry),
                    inflight_sub: old(self)@.inflight_sub + 1,
                    ..old(self)@
                })
            } else {
                r is None && final(self)@ == old(self)@
            },
    {
        let ghost before = self.trades@;
        proof {
            lemma_changed(before, id@);
        }
        let copy = match self.trades.get_mut(id) {
            Some(entry) => {
                entry.sync = TradeSync::Pending;
                Some(entry.clone())
            },
            None => None,
        };
        if copy.is_some() {
            self.inflight_sub = self.inflight_sub + 1;
        }
        copy
    }
}

/// Whether an entry can be sent: not where it was accepted or is on its way.
pub fn can_sync(sync: TradeSync) -> (r: bool)
    ensures
        r == (sync != TradeSync::Synced && sync != TradeSync::Pending),
{
    match sync {
        TradeSync::Synced => false,
        TradeSync::Pending => false,
        _ => true,
    }
}

/// Whether another attempt at recognition is due after so many.
pub fn another_attempt(made: u32) -> (r: bool)
    ensures
        r == (made < OCR_ATTEMPTS),
{
    made < OCR_ATTEMPTS
}

/// Whether the pending extractions are to be stored: they have changed, and it is
/// asked for or some time has passed since the last time.
pub fn save_due(current: &str, stored: &str, force: bool, elapsed_millis: u64) -> (r: bool)
    ensures
        r == (current@ != stored@ && (force || elapsed_millis >= 400)),
{
    !same(current, stored) && (force || elapsed_millis >= 400)
}

/// The options of a submission, as the settings have them. A blank game version is
/// none.
pub fn submit_options(config: &Config) -> (r: SubmitOptions)
    ensures
        r.base_url@ == config.base_url@,
        r.secret_key@ == config.secret_key@,
        r.api_token@ == config.api_token@,
        r.is_production == config.is_production,
        r.dry_run == config.dry_run,
        text_of(r.game_version) == if trim(config.game_version@).len() == 0 {
            None
        } else {
            Some(config.game_version@)
        },
{
    SubmitOptions {
        base_url: config.base_url.clone(),
        secret_key: config.secret_key.clone(),
        api_token: config.api_token.clone(),
        is_production: config.is_production,
        dry_run: config.dry_run,
        game_version: if trimmed(&chars_of(config.game_version.as_str())).len() == 0 {
            None
        } else {
            Some(config.game_version.clone())
        },
    }
}

/// With a key and a token in the settings, a live submission of an extraction whose
/// terminal is known is sent.
pub proof fn law_ready_settings_submit(
    config: Config,
    options: SubmitOptions,
    e: ExtractionView,
    screenshot: Option<Seq<char>>,
)
    requires
        trim(config.secret_key@).len() > 0,
        trim(config.api_token@).len() > 0,
        options.secret_key@ == config.secret_key@,
        options.api_token@ == config.api_token@,
        !options.dry_run,
        e.id_terminal is Some,
    ensures
        crate::api::submission(e, options, screenshot) matches Ok(
            crate::api::SubmissionView::Send(_),
        ),
{
}

/// How to run the recognition engine, as the settings have it.
pub fn ocr_config(config: &Config) -> (r: OcrConfig)
    ensures
        r.tesseract_exe@ == config.tesseract_exe@,
        r.tessdata_dir@ == config.tessdata_dir@,
        r.lang@ == "eng_sc"@,
        r.psm == 6,
        views(r.user_words@) == seq![
            joined_path(config.tessdata_dir@, "commodities.user-words"@),
            joined_path(config.tessdata_dir@, "terminals.user-words"@),
        ],
        text_of(r.user_patterns) == Some(joined_path(config.tessdata_dir@, "sc.patterns"@)),
{
    let dir = config.tessdata_dir.as_str();
    let mut user_words: Vec<String> = Vec::new();
    user_words.push(join(dir, "commodities.user-words"));
    user_words.push(join(dir, "terminals.user-words"));
    assert(views(user_words@) =~= seq![
        joined_path(config.tessdata_dir@, "commodities.user-words"@),
        joined_path(config.tessdata_dir@, "terminals.user-words"@),
    ]);
    OcrConfig {
        tesseract_exe: config.tesseract_exe.clone(),
        tessdata_dir: config.tessdata_dir.clone(),
        lang: "eng_sc".to_owned(),
        psm: 6,
        user_words,
        user_patterns: Some(join(dir, "sc.patterns")),
    }
}

/// Fills in the defaults of this machine where a path is not set or no longer
/// leads anywhere, as when a portable folder was moved.
pub fn heal_config(
    config: &mut Config,
    exe_is_file: bool,
    tessdata_is_dir: bool,
    default_exe: &str,
    default_tessdata: &str,
)
    ensures
        final(config).tesseract_exe@ == if old(config).tesseract_exe@.len() == 0 || !exe_is_file {
            default_exe@
        } else {
            old(config).tesseract_exe@
        },
        final(config).tessdata_dir@ == if old(config).tessdata_dir@.len() == 0
            || !tessdata_is_dir {
            default_tessdata@
        } else {
            old(config).tessdata_dir@
        },
        final(config).secret_key == old(config).secret_key,
        final(config).api_token == old(config).api_token,
        final(config).screenshot_dir == old(config).screenshot_dir,
        final(config).environment == old(config).environment,
        final(config).game_version == old(config).game_version,
        final(config).dry_run == old(config).dry_run,
        final(config).is_production == old(config).is_production,
        final(config).delete_after_send == old(config).delete_after_send,
        final(config).base_url == old(config).base_url,
{
    if chars_of(config.tesseract_exe.as_str()).len() == 0 || !exe_is_file {
        config.tesseract_exe = default_exe.to_owned();
    }
    if chars_of(config.tessdata_dir.as_str()).len() == 0 || !tessdata_is_dir {
        config.tessdata_dir = default_tessdata.to_owned();
    }
}

/// An extraction without a terminal that comes in after one with a terminal gets
/// that terminal, marked as not detected.
pub proof fn law_terminal_is_carried_over(
    session: SessionView,
    first: ExtractionView,
    second: ExtractionView,
)
    requires
        first.id_terminal is Some,
        first.terminal_name is Some,
        second.id_terminal is None,
    ensures
        ({
            let after = session.received(first).received(second);
            let e = after.pending.last();
            &&& e.id_terminal == first.id_terminal
            &&& e.terminal_name == first.terminal_name
            &&& e.terminal_confidence == 0
            &&& e.commodities == second.commodities
            &&& after.last_terminal == session.received(first).last_terminal
        }),
{
}

/// The activity log never grows beyond its limit, and its newest line is the one
/// that was added last.
pub proof fn law_log_is_bounded(session: SessionView, line: Seq<char>)
    ensures
        session.noting(line).logs.len() <= MAX_LINES,
        session.noting(line).logs[0] == line,
{
}

/// A report that was accepted leaves the list of pending extractions, and one that
/// was rejected stays on it.
pub proof fn law_only_accepted_reports_leave(
    session: SessionView,
    key: Seq<char>,
    response: ResponseView,
    report: ReportView,
    message: Seq<char>,
)
    ensures
        ({
            let after = session.reported(key, response, report, message);
            &&& response.ok() ==> forall|i: int|
                0 <= i < after.pending.len() ==> (#[trigger] after.pending[i]).screenshot != key
            &&& !response.ok() ==> after.pending == session.pending
            &&& after.reports.last() == report
            &&& !after.submitting.contains(key)
        }),
{
    lemma_screenshot_gone(session.pending, key);
    lemma_text_gone(session.submitting, key);
}

proof fn lemma_screenshot_gone(pending: Seq<ExtractionView>, key: Seq<char>)
    ensures
        forall|i: int|
            0 <= i < without_screenshot(pending, key).len() ==> (#[trigger] without_screenshot(
                pending,
                key,
            )[i]).screenshot != key,
    decreases pending.len(),
{
    if pending.len() > 0 {
        lemma_screenshot_gone(pending.drop_last(), key);
    }
}

proof fn lemma_text_gone(texts: Seq<Seq<char>>, text: Seq<char>)
    ensures
        !without_text(texts, text).contains(text),
    decreases texts.len(),
{
    if texts.len() > 0 {
        lemma_text_gone(texts.drop_last(), text);
        let before = without_text(texts.drop_last(), text);
        let after = without_text(texts, text);
        if after.contains(text) {
            let k = choose|k: int| 0 <= k < after.len() && after[k] == text;
            if k < before.len() {
                assert(before[k] == text);
            }
        }
    }
}

/// Taking off the extractions of a screenshot keeps exactly the others, in their order; so
/// does taking a text off a list.
pub proof fn law_only_the_sent_one_leaves(
    pending: Seq<ExtractionView>,
    texts: Seq<Seq<char>>,
    key: Seq<char>,
)
    ensures
        without_screenshot(pending, key) == pending.filter(
            |e: ExtractionView| e.screenshot != key,
        ),
        without_text(texts, key) == texts.filter(|text: Seq<char>| text != key),
    decreases pending.len() + texts.len(),
{
    reveal(Seq::filter);
    if pending.len() > 0 {
        law_only_the_sent_one_leaves(pending.drop_last(), texts, key);
    }
    if texts.len() > 0 {
        law_only_the_sent_one_leaves(pending, texts.drop_last(), key);
    }
}

/// An extraction that comes in goes to the end of the list. One that names a terminal goes
/// there as it is and its terminal is inherited from now on; one that names none gets the
/// last one, where there is one. One job less runs, and nothing else changes but the log.
pub proof fn law_received_extractions_are_listed(session: SessionView, e: ExtractionView)
    ensures
        ({
            let after = session.received(e);
            &&& after.pending.len() == session.pending.len() + 1
            &&& after.pending.drop_last() =~= session.pending
            &&& after.pending.last().commodities == e.commodities
            &&& after.pending.last().screenshot == e.screenshot
            &&& after.pending.last().terminal_type == e.terminal_type
            &&& after.pending.last().captured_at == e.captured_at
            &&& e.id_terminal is Some || session.last_terminal is None ==> after.pending.last() == e
            &&& e.id_terminal is Some && e.terminal_name is Some ==> after.last_terminal == Some(
                (e.id_terminal->0, e.terminal_name->0),
            )
            &&& e.id_terminal is None || e.terminal_name is None ==> after.last_terminal
                == session.last_terminal
            &&& session.inflight > 0 ==> after.inflight == session.inflight - 1
            &&& session.inflight == 0 ==> after.inflight == 0
            &&& after.logs.len() > 0
            &&& after == (SessionView {
                pending: after.pending,
                last_terminal: after.last_terminal,
                inflight: after.inflight,
                logs: after.logs,
                ..session
            })
        }),
{
}

/// A screenshot that is taken up is remembered and runs; a report that is begun is on its
/// way. Nothing else changes but the log.
pub proof fn law_work_is_counted(session: SessionView, key: Seq<char>, name: Option<Seq<char>>)
    ensures
        session.taking_up(key, name).processed.contains(key),
        session.taking_up(key, name).processed.drop_last() =~= session.processed,
        session.taking_up(key, name).inflight == session.inflight + 1,
        session.taking_up(key, name) == (SessionView {
            processed: session.taking_up(key, name).processed,
            inflight: session.inflight + 1,
            logs: session.taking_up(key, name).logs,
            ..session
        }),
        session.beginning(key).submitting.contains(key),
        session.beginning(key).submitting.drop_last() =~= session.submitting,
        session.beginning(key) == (SessionView {
            submitting: session.beginning(key).submitting,
            inflight_sub: session.inflight_sub + 1,
            ..session
        }),
{
    let taken = session.taking_up(key, name).processed;
    assert(taken[taken.len() - 1] == key);
    let begun = session.beginning(key).submitting;
    assert(begun[begun.len() - 1] == key);
}

/// After a response, one submission less runs, its screenshot is not on its way, and the
/// report is kept. The message says of an error exactly where the report was not accepted.
pub proof fn law_responses_are_kept(
    session: SessionView,
    key: Seq<char>,
    response: ResponseView,
    report: ReportView,
    message: Seq<char>,
    problem: Seq<char>,
)
    ensures
        ({
            let after = session.reported(key, response, report, message);
            let failed = session.unreported(key, problem);
            &&& session.inflight_sub > 0 ==> after.inflight_sub == session.inflight_sub - 1
                && failed.inflight_sub == session.inflight_sub - 1
            &&& after.submitting == session.submitting.filter(|text: Seq<char>| text != key)
            &&& failed.submitting == after.submitting
            &&& after.reports == reports_with(session.reports, report)
            &&& response.ok() ==> after.pending == session.pending.filter(
                |e: ExtractionView| e.screenshot != key,
            )
            &&& !response.ok() ==> after.pending == session.pending
            &&& after.toast == Some((message, !response.ok()))
            &&& after.logs[0] == message
            &&& after.trades == session.trades && after.processed == session.processed
            &&& after.inflight == session.inflight && after.editing == session.editing
            &&& failed.pending == session.pending && failed.reports == session.reports
            &&& failed.trades == session.trades && failed.processed == session.processed
            &&& failed.toast is Some && (failed.toast->0).1
        }),
{
    law_only_the_sent_one_leaves(session.pending, session.submitting, key);
}

/// A response to a trade changes the entry with its id and no other one: it is synced where
/// it was accepted, failed where it was rejected, and gets the id and the words of the
/// service. A trade that could not be sent is local again.
pub proof fn law_trade_responses_change_one_entry(
    session: SessionView,
    id: Seq<char>,
    response: TradeResponseView,
    problem: Seq<char>,
    k: int,
)
    requires
        first_entry(session.trades, id, k),
    ensures
        ({
            let after = session.traded(id, response).trades;
            let failed = session.untraded(id, problem).trades;
            let entry = session.trades[k];
            &&& after.len() == session.trades.len() && failed.len() == session.trades.len()
            &&& forall|i: int|
                0 <= i < session.trades.len() && i != k ==> #[trigger] after[i]
                    == session.trades[i] && failed[i] == session.trades[i]
            &&& response.dry_run <==> after[k].sync == TradeSync::DryRun
            &&& !response.dry_run && response.status == "ok"@ <==> after[k].sync
                == TradeSync::Synced
            &&& !response.dry_run && response.status != "ok"@ <==> after[k].sync
                == TradeSync::Failed
            &&& after[k].uex_id == response.id_user_trade
            &&& response.message.len() == 0 ==> after[k].status_text == response.status
            &&& response.message.len() > 0 ==> after[k].status_text == response.status + " — "@
                + response.message
            &&& after[k] == (TradeView {
                sync: after[k].sync,
                uex_id: after[k].uex_id,
                status_text: after[k].status_text,
                ..entry
            })
            &&& failed[k] == (TradeView {
                sync: TradeSync::Local,
                status_text: problem,
                ..entry
            })
            &&& session.traded(id, response).toast is Some
            &&& (session.traded(id, response).toast->0).1 <==> !response.ok()
            &&& session.untraded(id, problem).toast is Some
            &&& (session.untraded(id, problem).toast->0).1
        }),
{
    lemma_changed(session.trades, id);
    assert(session.trades[k].id == id);
}

/// The batch is exactly the extractions that can be submitted and are not on their way, in
/// their order; and as many are ready as can be submitted. An extraction can be submitted
/// where its terminal and type are known and some row has a commodity and a price.
pub proof fn law_batch_is_what_is_ready(
    pending: Seq<ExtractionView>,
    submitting: Seq<Seq<char>>,
)
    ensures
        batch_of(pending, submitting) == pending.filter(
            |e: ExtractionView| e.submittable() && !submitting.contains(e.screenshot),
        ),
        ready_count(pending) == pending.filter(|e: ExtractionView| e.submittable()).len(),
        forall|e: ExtractionView| #[trigger]
            e.submittable() <==> e.id_terminal is Some && e.terminal_type is Some && exists|i: int|
                0 <= i < e.commodities.len() && (#[trigger] e.commodities[i]).id_commodity is Some
                    && e.commodities[i].price is Some,
    decreases pending.len(),
{
    reveal(Seq::filter);
    assert forall|e: ExtractionView| #[trigger] e.submittable() <==> e.id_terminal is Some
        && e.terminal_type is Some && exists|i: int|
        0 <= i < e.commodities.len() && (#[trigger] e.commodities[i]).id_commodity is Some
            && e.commodities[i].price is Some by {
        if e.submittable() {
            let i = choose|i: int|
                0 <= i < e.commodities.len() && (#[trigger] e.commodities[i]).is_priced();
            assert(e.commodities[i].id_commodity is Some && e.commodities[i].price is Some);
        }
        if exists|i: int|
            0 <= i < e.commodities.len() && (#[trigger] e.commodities[i]).id_commodity is Some
                && e.commodities[i].price is Some {
            let i = choose|i: int|
                0 <= i < e.commodities.len() && (#[trigger] e.commodities[i]).id_commodity is Some
                    && e.commodities[i].price is Some;
            assert(e.commodities[i].is_priced());
        }
    }
    if pending.len() > 0 {
        law_batch_is_what_is_ready(pending.drop_last(), submitting);
    }
}

/// A trade form is complete where a commodity, a terminal, a quantity and a price are
/// given; its entry has them and is on its way.
pub proof fn law_complete_forms_give_their_entry(
    form: TradeForm,
    id: Seq<char>,
    created_at: i64,
)
    ensures
        form_problem_of(form) is None <==> form.commodity is Some && form.terminal is Some
            && form.scu >= 1 && form.price_is_positive,
        form_problem_of(form) is None ==> {
            let entry = form_entry(form, id, created_at);
            &&& entry.id == id
            &&& entry.operation == form.operation
            &&& entry.id_commodity == (form.commodity->0).0
            &&& entry.commodity_name == (form.commodity->0).1@
            &&& entry.id_terminal == (form.terminal->0).0
            &&& entry.terminal_name == (form.terminal->0).1@
            &&& entry.terminal_system == (form.terminal->0).2@
            &&& form.scu <= u32::MAX ==> entry.scu == form.scu
            &&& entry.price_bits == form.price_bits
            &&& entry.created_at == created_at
            &&& entry.sync == TradeSync::Pending
            &&& entry.uex_id is None
        },
{
}

/// The activity log keeps the two hundred newest lines, the newest first.
pub proof fn law_log_keeps_the_newest(session: SessionView, line: Seq<char>)
    ensures
        ({
            let logs = session.noting(line).logs;
            &&& logs[0] == line
            &&& session.logs.len() < 200 ==> logs.len() == session.logs.len() + 1
            &&& session.logs.len() >= 200 ==> logs.len() == 200
            &&& forall|i: int| 0 < i < logs.len() ==> #[trigger] logs[i] == session.logs[i - 1]
        }),
{
}

/// Whether the screenshot of a report goes, once there is a response.
pub open spec fn deletes_screenshot(response: ResponseView, delete_after_send: bool) -> bool {
    response.ok() && !response.dry_run && delete_after_send
}

/// A screenshot is deleted exactly where that is asked for and the service has accepted the
/// report; so neither a dry run nor a rejected report ever costs a screenshot.
pub proof fn law_only_accepted_screenshots_are_deleted(
    response: ResponseView,
    delete_after_send: bool,
)
    ensures
        deletes_screenshot(response, delete_after_send) ==> delete_after_send
            && !response.dry_run && response.status == "ok"@,
        delete_after_send && !response.dry_run && response.status == "ok"@ ==> deletes_screenshot(
            response,
            delete_after_send,
        ),
{
}

} // verus!
