//! Submitted reports and their status: what was sent, what came of it, and which
//! report corrects which.

use vstd::prelude::*;

use crate::api::{ResponseView, SubmitResponse};
use crate::clock::{local_id, now_millis, now_seconds, write_id};
use crate::model::{
    copy_rows, copy_text, copy_texts, lemma_views_push, text_of, views, Commodity, CommodityView,
    Extraction, ExtractionView, TerminalType,
};
use crate::order::{
    as_ints, is_stable_order, lemma_stable_order_exists, precedes, sorted_positions, stable_order,
    Key,
};
use crate::text::{chars_of, push_text, same, string_of};

verus! {

/// The state of a report.
#[derive(Clone, Copy, Debug, PartialEq, Eq, Structural)]
pub enum ReportState {
    /// Sent and accepted.
    Submitted,
    /// Prepared in dry-run mode; nothing was sent.
    DryRun,
    /// Sent and rejected.
    Failed,
    /// A later report has replaced this one.
    Updated,
}

impl ReportState {
    /// The label on screen.
    pub fn label(&self) -> (r: &'static str)
        ensures
            r@ == match self {
                ReportState::Submitted => "Submitted"@,
                ReportState::DryRun => "Dry run"@,
                ReportState::Failed => "Failed"@,
                ReportState::Updated => "Updated (superseded)"@,
            },
    {
        match self {
            ReportState::Submitted => "Submitted",
            ReportState::DryRun => "Dry run",
            ReportState::Failed => "Failed",
            ReportState::Updated => "Updated (superseded)",
        }
    }
}

/// A submission that was saved.
#[derive(Debug, PartialEq)]
pub struct SubmittedReport {
    /// Local id, which is not the report id of the service.
    pub id: String,
    pub terminal_name: String,
    pub id_terminal: u32,
    pub terminal_type: TerminalType,
    pub screenshot: String,
    /// The rows exactly as they were submitted.
    pub commodities: Vec<Commodity>,
    pub state: ReportState,
    /// What the service said.
    pub status_text: String,
    /// Report ids of the service.
    pub ids_reports: Vec<String>,
    pub username: Option<String>,
    pub dry_run: bool,
    /// Unix time of the report.
    pub submitted_at: i64,
    /// Local id of the report that this one corrects.
    pub supersedes: Option<String>,
}

/// What a [`SubmittedReport`] stands for.
pub struct ReportView {
    pub id: Seq<char>,
    pub terminal_name: Seq<char>,
    pub id_terminal: u32,
    pub terminal_type: TerminalType,
    pub screenshot: Seq<char>,
    pub commodities: Seq<CommodityView>,
    pub state: ReportState,
    pub status_text: Seq<char>,
    pub ids_reports: Seq<Seq<char>>,
    pub username: Option<Seq<char>>,
    pub dry_run: bool,
    pub submitted_at: i64,
    pub supersedes: Option<Seq<char>>,
}

impl View for SubmittedReport {
    type V = ReportView;

    open spec fn view(&self) -> ReportView {
        ReportView {
            id: self.id@,
            terminal_name: self.terminal_name@,
            id_terminal: self.id_terminal,
            terminal_type: self.terminal_type,
            screenshot: self.screenshot@,
            commodities: views(self.commodities@),
            state: self.state,
            status_text: self.status_text@,
            ids_reports: views(self.ids_reports@),
            username: text_of(self.username),
            dry_run: self.dry_run,
            submitted_at: self.submitted_at,
            supersedes: text_of(self.supersedes),
        }
    }
}

impl Clone for SubmittedReport {
    fn clone(&self) -> (r: Self)
        ensures
            r@ == self@,
    {
        SubmittedReport {
            id: self.id.clone(),
            terminal_name: self.terminal_name.clone(),
            id_terminal: self.id_terminal,
            terminal_type: self.terminal_type,
            screenshot: self.screenshot.clone(),
            commodities: copy_rows(&self.commodities),
            state: self.state,
            status_text: self.status_text.clone(),
            ids_reports: copy_texts(&self.ids_reports),
            username: copy_text(&self.username),
            dry_run: self.dry_run,
            submitted_at: self.submitted_at,
            supersedes: copy_text(&self.supersedes),
        }
    }
}

impl ReportView {
    /// The extraction that a report was made of, as far as the report holds it.
    pub open spec fn extraction(self) -> ExtractionView {
        ExtractionView {
            screenshot: self.screenshot,
            terminal_name: Some(self.terminal_name),
            id_terminal: Some(self.id_terminal),
            terminal_confidence: 0,
            terminal_candidates: Seq::empty(),
            terminal_type: Some(self.terminal_type),
            commodities: self.commodities,
            captured_at: Some(self.submitted_at),
        }
    }
}

impl SubmittedReport {
    /// The extraction that a report was made of, to be edited and submitted again.
    pub fn to_extraction(&self) -> (e: Extraction)
        ensures
            e@ == self@.extraction(),
    {
        let mut e = Extraction::new(self.screenshot.as_str());
        e.terminal_name = Some(self.terminal_name.clone());
        e.id_terminal = Some(self.id_terminal);
        e.terminal_type = Some(self.terminal_type);
        e.commodities = copy_rows(&self.commodities);
        e.captured_at = Some(self.submitted_at);
        e
    }
}

/// The state of a report with a response.
pub open spec fn state_of(response: ResponseView) -> ReportState {
    if response.dry_run {
        ReportState::DryRun
    } else if response.ok() {
        ReportState::Submitted
    } else {
        ReportState::Failed
    }
}

/// The status of a response, with its message where there is one.
pub open spec fn status_text_of(response: ResponseView) -> Seq<char> {
    if response.message.len() == 0 {
        response.status
    } else {
        response.status + " — "@ + response.message
    }
}

/// The report of an extraction that got a response. `now` is the time where the
/// extraction states none.
pub open spec fn report_of(
    e: ExtractionView,
    response: ResponseView,
    supersedes: Option<Seq<char>>,
    id: Seq<char>,
    now: i64,
) -> ReportView {
    ReportView {
        id,
        terminal_name: match e.terminal_name {
            Some(name) => name,
            None => Seq::empty(),
        },
        id_terminal: match e.id_terminal {
            Some(id) => id,
            None => 0,
        },
        terminal_type: match e.terminal_type {
            Some(t) => t,
            None => TerminalType::Sell,
        },
        screenshot: e.screenshot,
        commodities: e.commodities,
        state: state_of(response),
        status_text: status_text_of(response),
        ids_reports: response.ids_reports,
        username: response.username,
        dry_run: response.dry_run,
        submitted_at: match e.captured_at {
            Some(t) => t,
            None => now,
        },
        supersedes,
    }
}

/// Makes a report with a given id, at a given time.
pub fn report_with(
    e: &Extraction,
    response: &SubmitResponse,
    supersedes: Option<String>,
    id: String,
    now: i64,
) -> (r: SubmittedReport)
    ensures
        r@ == report_of(e@, response@, text_of(supersedes), id@, now),
{
    let state = if response.dry_run {
        ReportState::DryRun
    } else if response.is_ok() {
        ReportState::Submitted
    } else {
        ReportState::Failed
    };
    let message = chars_of(response.message.as_str());
    let status_text = if message.len() == 0 {
        response.status.clone()
    } else {
        let mut v = chars_of(response.status.as_str());
        push_text(&mut v, " — ");
        push_text(&mut v, response.message.as_str());
        string_of(&v)
    };
    SubmittedReport {
        id,
        terminal_name: match &e.terminal_name {
            Some(name) => name.clone(),
            None => String::new(),
        },
        id_terminal: match e.id_terminal {
            Some(id) => id,
            None => 0,
        },
        terminal_type: match e.terminal_type {
            Some(t) => t,
            None => TerminalType::Sell,
        },
        screenshot: e.screenshot.clone(),
        commodities: copy_rows(&e.commodities),
        state,
        status_text,
        ids_reports: copy_texts(&response.ids_reports),
        username: copy_text(&response.username),
        dry_run: response.dry_run,
        submitted_at: match e.captured_at {
            Some(t) => t,
            None => now,
        },
        supersedes,
    }
}

/// Makes the report of an extraction that got a response. Its id is made of the
/// time of day and of the running number `n`, and its time is the time of day
/// where the extraction states none.
pub fn report_from(
    e: &Extraction,
    response: &SubmitResponse,
    supersedes: Option<String>,
    n: u64,
) -> (r: SubmittedReport)
    ensures
        exists|millis: i64, now: i64|
            r@ == #[trigger] report_of(
                e@,
                response@,
                text_of(supersedes),
                local_id('r', millis as int, n as nat),
                now,
            ),
{
    let millis = now_millis();
    let now = now_seconds();
    let id = write_id('r', millis, n);
    report_with(e, response, supersedes, id, now)
}

/// The saved reports, in the order in which they were added.
#[derive(Debug)]
pub struct ReportStore {
    reports: Vec<SubmittedReport>,
}

impl View for ReportStore {
    type V = Seq<ReportView>;

    closed spec fn view(&self) -> Seq<ReportView> {
        views(self.reports@)
    }
}

/// Report `k` is the first with the id.
pub open spec fn first_report(reports: Seq<ReportView>, id: Seq<char>, k: int) -> bool {
    &&& 0 <= k < reports.len()
    &&& reports[k].id == id
    &&& forall|j: int| 0 <= j < k ==> (#[trigger] reports[j]).id != id
}

/// Some report has the id.
pub open spec fn has_report(reports: Seq<ReportView>, id: Seq<char>) -> bool {
    exists|k: int| #[trigger] first_report(reports, id, k)
}

/// The position of the first report with the id.
pub open spec fn report_position(reports: Seq<ReportView>, id: Seq<char>) -> int {
    choose|k: int| #[trigger] first_report(reports, id, k)
}

/// There is only one first report with an id.
proof fn lemma_report_position(reports: Seq<ReportView>, id: Seq<char>, k: int)
    requires
        first_report(reports, id, k),
    ensures
        report_position(reports, id) == k,
{
    let p = report_position(reports, id);
    assert(first_report(reports, id, p));
    if p < k {
        assert(reports[p].id != id);
    }
    if k < p {
        assert(reports[k].id != id);
    }
}

/// A report that was replaced.
pub open spec fn updated(report: ReportView) -> ReportView {
    ReportView { state: ReportState::Updated, ..report }
}

/// The reports after the one that is superseded was marked.
pub open spec fn marked(reports: Seq<ReportView>, supersedes: Option<Seq<char>>) -> Seq<
    ReportView,
> {
    match supersedes {
        Some(id) => if has_report(reports, id) {
            let k = report_position(reports, id);
            reports.update(k, updated(reports[k]))
        } else {
            reports
        },
        None => reports,
    }
}

/// The reports after one more was added.
pub open spec fn reports_with(reports: Seq<ReportView>, report: ReportView) -> Seq<ReportView> {
    marked(reports, report.supersedes).push(report)
}

/// The positions below `n` of the reports that were not replaced.
pub open spec fn active_positions(reports: Seq<ReportView>, n: int) -> Seq<int>
    decreases n,
{
    if n <= 0 {
        Seq::empty()
    } else if reports[n - 1].state == ReportState::Updated {
        active_positions(reports, n - 1)
    } else {
        active_positions(reports, n - 1).push(n - 1)
    }
}

/// The sorting keys that put the newest report first.
pub open spec fn report_keys(reports: Seq<ReportView>, positions: Seq<int>) -> Seq<Key> {
    Seq::new(
        positions.len(),
        |k: int| ((-1 - reports[positions[k]].submitted_at) as i64, 0i64),
    )
}

/// The reports that were not replaced, from the newest to the oldest; those of one
/// time stay in order.
pub open spec fn active_of(reports: Seq<ReportView>) -> Seq<ReportView> {
    let positions = active_positions(reports, reports.len() as int);
    let order = stable_order(report_keys(reports, positions));
    Seq::new(positions.len(), |k: int| reports[positions[order[k]]])
}

impl ReportStore {
    /// An empty store.
    pub fn in_memory() -> (r: ReportStore)
        ensures
            r@ == Seq::<ReportView>::empty(),
    {
        let r = ReportStore { reports: Vec::new() };
        assert(r@ =~= Seq::empty());
        r
    }

    /// A store of reports that were saved before.
    pub fn from_reports(reports: Vec<SubmittedReport>) -> (r: ReportStore)
        ensures
            r@ == views(reports@),
    {
        ReportStore { reports }
    }

    /// All reports, in the order in which they were added.
    pub fn reports(&self) -> (r: &[SubmittedReport])
        ensures
            views(r@) == self@,
    {
        self.reports.as_slice()
    }

    /// The position of the first report with an id.
    fn position(&self, id: &str) -> (r: Option<usize>)
        ensures
            match r {
                Some(k) => first_report(self@, id@, k as int) && k < self.reports@.len(),
                None => !has_report(self@, id@),
            },
    {
        let mut i: usize = 0;
        while i < self.reports.len()
            invariant
                i <= self.reports.len(),
                forall|j: int| 0 <= j < i ==> (#[trigger] self@[j]).id != id@,
            decreases self.reports.len() - i,
        {
            assert(self@[i as int] == self.reports@[i as int]@);
            if same(self.reports[i].id.as_str(), id) {
                assert(first_report(self@, id@, i as int));
                return Some(i);
            }
            i += 1;
        }
        None
    }

    /// The report with an id.
    pub fn get(&self, id: &str) -> (r: Option<&SubmittedReport>)
        ensures
            match r {
                Some(report) => has_report(self@, id@) && report@ == self@[report_position(
                    self@,
                    id@,
                )],
                None => !has_report(self@, id@),
            },
    {
        match self.position(id) {
            Some(k) => {
                proof {
                    lemma_report_position(self@, id@, k as int);
                }
                Some(&self.reports[k])
            },
            None => None,
        }
    }

    /// Adds a report and returns its id. The report that it corrects is marked as
    /// replaced.
    pub fn add(&mut self, report: SubmittedReport) -> (id: String)
        ensures
            final(self)@ == reports_with(old(self)@, report@),
            id@ == report.id@,
    {
        let ghost before = self@;
        if let Some(corrected) = &report.supersedes {
            if let Some(k) = self.position(corrected.as_str()) {
                proof {
                    lemma_report_position(before, corrected@, k as int);
                }
                let mut old_report = self.reports[k].clone();
                old_report.state = ReportState::Updated;
                self.reports.set(k, old_report);
                assert(views(self.reports@) =~= before.update(
                    k as int,
                    updated(before[k as int]),
                ));
            }
        }
        assert(self@ == marked(before, report@.supersedes));
        let id = report.id.clone();
        proof {
            lemma_views_push(self.reports@, report);
        }
        self.reports.push(report);
        id
    }

    /// The reports that were not replaced, from the newest to the oldest.
    pub fn active(&self) -> (r: Vec<&SubmittedReport>)
        ensures
            views(r@) == active_of(self@),
    {
        let ghost all = self@;
        let mut positions: Vec<usize> = Vec::new();
        let mut keys: Vec<Key> = Vec::new();
        let mut i: usize = 0;
        assert(as_ints(positions@) =~= Seq::empty());
        assert(keys@ =~= report_keys(all, Seq::empty()));
        while i < self.reports.len()
            invariant
                i <= self.reports.len(),
                all == views(self.reports@),
                as_ints(positions@) == active_positions(all, i as int),
                keys@ == report_keys(all, as_ints(positions@)),
                forall|k: int| 0 <= k < positions@.len() ==> #[trigger] positions@[k] < i,
            decreases self.reports.len() - i,
        {
            assert(all[i as int] == self.reports@[i as int]@);
            if self.reports[i].state != ReportState::Updated {
                let ghost before = as_ints(positions@);
                positions.push(i);
                keys.push((-1 - self.reports[i].submitted_at, 0));
                proof {
                    assert(as_ints(positions@) =~= before.push(i as int));
                    assert(keys@ =~= report_keys(all, as_ints(positions@)));
                }
            }
            i += 1;
        }
        let order = sorted_positions(&keys);
        let ghost expected = active_of(all);
        let mut r: Vec<&SubmittedReport> = Vec::new();
        let mut k: usize = 0;
        assert(views(r@) =~= Seq::empty());
        while k < order.len()
            invariant
                k <= order.len() == positions.len(),
                all == views(self.reports@),
                expected == active_of(all),
                as_ints(positions@) == active_positions(all, all.len() as int),
                keys@ == report_keys(all, as_ints(positions@)),
                forall|k: int|
                    0 <= k < positions@.len() ==> #[trigger] positions@[k] < self.reports@.len(),
                is_stable_order(as_ints(order@), keys@),
                as_ints(order@) == stable_order(keys@),
                views(r@) == expected.take(k as int),
            decreases order.len() - k,
        {
            assert(as_ints(order@)[k as int] == order@[k as int]);
            let at = positions[order[k]];
            assert(as_ints(positions@)[order@[k as int] as int] == at);
            let report = &self.reports[at];
            proof {
                lemma_views_push(r@, report);
                assert(expected[k as int] == report@);
                assert(expected.take(k + 1) =~= expected.take(k as int).push(report@));
            }
            r.push(report);
            k += 1;
        }
        assert(expected.take(k as int) =~= expected);
        r
    }
}

/// The positions of active reports are those that were not replaced.
proof fn lemma_active_positions(reports: Seq<ReportView>, n: int)
    requires
        0 <= n <= reports.len(),
    ensures
        forall|k: int|
            0 <= k < active_positions(reports, n).len() ==> 0
                <= #[trigger] active_positions(reports, n)[k] < n && reports[active_positions(
                reports,
                n,
            )[k]].state != ReportState::Updated,
        forall|i: int|
            0 <= i < n && (#[trigger] reports[i]).state != ReportState::Updated
                ==> active_positions(reports, n).contains(i),
    decreases n,
{
    if n > 0 {
        lemma_active_positions(reports, n - 1);
        let before = active_positions(reports, n - 1);
        let after = active_positions(reports, n);
        assert forall|i: int| 0 <= i < n && (
        #[trigger] reports[i]).state != ReportState::Updated implies after.contains(i) by {
            if i < n - 1 {
                assert(before.contains(i));
                let k = choose|k: int| 0 <= k < before.len() && before[k] == i;
                assert(after[k] == i);
            } else {
                assert(after[after.len() - 1] == i);
            }
        }
    }
}

/// The active reports are exactly those that were not replaced.
pub proof fn law_active_reports_are_not_replaced(reports: Seq<ReportView>)
    ensures
        forall|k: int|
            0 <= k < active_of(reports).len() ==> (#[trigger] active_of(reports)[k]).state
                != ReportState::Updated && reports.contains(active_of(reports)[k]),
        forall|i: int|
            0 <= i < reports.len() && (#[trigger] reports[i]).state != ReportState::Updated
                ==> active_of(reports).contains(reports[i]),
{
    let n = reports.len() as int;
    lemma_active_positions(reports, n);
    let positions = active_positions(reports, n);
    let keys = report_keys(reports, positions);
    lemma_stable_order_exists(keys);
    let order = stable_order(keys);
    let active = active_of(reports);
    assert forall|k: int| 0 <= k < active.len() implies (
    #[trigger] active[k]).state != ReportState::Updated && reports.contains(active[k]) by {
        assert(0 <= order[k] < positions.len());
        assert(reports[positions[order[k]]] == active[k]);
    }
    assert forall|i: int| 0 <= i < reports.len() && (
    #[trigger] reports[i]).state != ReportState::Updated implies active.contains(reports[i]) by {
        assert(positions.contains(i));
        let p = choose|p: int| 0 <= p < positions.len() && positions[p] == i;
        assert(order.contains(p));
        let k = choose|k: int| 0 <= k < order.len() && order[k] == p;
        assert(active[k] == reports[i]);
    }
}

/// Among the active reports, none is newer than one before it.
pub proof fn law_active_reports_go_back_in_time(reports: Seq<ReportView>, k: int, l: int)
    requires
        0 <= k < l < active_of(reports).len(),
    ensures
        active_of(reports)[k].submitted_at >= active_of(reports)[l].submitted_at,
{
    let positions = active_positions(reports, reports.len() as int);
    let keys = report_keys(reports, positions);
    lemma_stable_order_exists(keys);
    let order = stable_order(keys);
    assert(precedes(keys, order[k], order[l]));
}

/// Adding a report keeps the whole history: it goes to the end, no report is lost
/// or moved, and only the one that it corrects changes, and that only to being
/// marked as replaced.
pub proof fn law_history_is_kept(reports: Seq<ReportView>, report: ReportView)
    ensures
        ({
            let after = reports_with(reports, report);
            &&& after.len() == reports.len() + 1
            &&& after.last() == report
            &&& forall|i: int|
                0 <= i < reports.len() ==> #[trigger] after[i] == reports[i] || (
                report.supersedes == Some(reports[i].id) && after[i] == updated(reports[i]))
        }),
{
    if let Some(id) = report.supersedes {
        if has_report(reports, id) {
            assert(first_report(reports, id, report_position(reports, id)));
        }
    }
}

/// After a correction, the report that it corrects is found as replaced and is no
/// longer active, and the correction is active.
pub proof fn law_correction_replaces(reports: Seq<ReportView>, report: ReportView, id: Seq<char>)
    requires
        report.supersedes == Some(id),
        has_report(reports, id),
        report.state != ReportState::Updated,
        report.id != id,
        forall|i: int, j: int|
            0 <= i < j < reports.len() ==> (#[trigger] reports[i]).id != (
            #[trigger] reports[j]).id,
    ensures
        ({
            let after = reports_with(reports, report);
            &&& has_report(after, id)
            &&& after[report_position(after, id)].state == ReportState::Updated
            &&& active_of(after).contains(report)
            &&& forall|k: int|
                0 <= k < active_of(after).len() ==> (#[trigger] active_of(after)[k]).id != id
        }),
{
    let after = reports_with(reports, report);
    let k = report_position(reports, id);
    assert(first_report(reports, id, k));
    assert(after[k] == updated(reports[k]));
    assert(first_report(after, id, k)) by {
        assert forall|j: int| 0 <= j < k implies (#[trigger] after[j]).id != id by {
            assert(after[j] == reports[j]);
        }
    }
    lemma_report_position(after, id, k);
    law_active_reports_are_not_replaced(after);
    assert(after[after.len() - 1] == report);
    assert forall|m: int| 0 <= m < active_of(after).len() implies (
    #[trigger] active_of(after)[m]).id != id by {
        let r = active_of(after)[m];
        assert(after.contains(r));
        let i = choose|i: int| 0 <= i < after.len() && after[i] == r;
        if i < reports.len() && i != k {
            assert(after[i] == reports[i]);
            if i < k {
                assert(reports[i].id != reports[k].id);
            } else {
                assert(reports[k].id != reports[i].id);
            }
        }
    }
}

/// A report gives back what it was made of: opening a saved report of a complete
/// extraction shows its terminal, type, rows, screenshot and time.
pub proof fn law_report_gives_extraction_back(
    e: ExtractionView,
    response: ResponseView,
    supersedes: Option<Seq<char>>,
    id: Seq<char>,
    now: i64,
)
    requires
        e.terminal_name is Some,
        e.id_terminal is Some,
        e.terminal_type is Some,
        e.captured_at is Some,
    ensures
        report_of(e, response, supersedes, id, now).extraction() == (ExtractionView {
            terminal_confidence: 0,
            terminal_candidates: Seq::empty(),
            ..e
        }),
{
}

/// A report is submitted where its response is "ok" and was no dry run; it failed where
/// neither holds. It carries what the service said, and its time is that of the capture,
/// or else the time at which it was made.
pub proof fn law_report_tells_its_outcome(
    e: ExtractionView,
    response: ResponseView,
    supersedes: Option<Seq<char>>,
    id: Seq<char>,
    now: i64,
)
    ensures
        ({
            let r = report_of(e, response, supersedes, id, now);
            &&& r.state == ReportState::DryRun <==> response.dry_run
            &&& r.state == ReportState::Submitted <==> !response.dry_run && response.status == "ok"@
            &&& r.state == ReportState::Failed <==> !response.dry_run && response.status != "ok"@
            &&& r.id == id
            &&& r.supersedes == supersedes
            &&& r.dry_run == response.dry_run
            &&& r.ids_reports == response.ids_reports
            &&& r.username == response.username
            &&& r.commodities == e.commodities
            &&& r.screenshot == e.screenshot
            &&& e.captured_at is Some ==> r.submitted_at == e.captured_at->0
            &&& e.captured_at is None ==> r.submitted_at == now
            &&& e.id_terminal is Some ==> r.id_terminal == e.id_terminal->0
            &&& e.id_terminal is None ==> r.id_terminal == 0
            &&& e.terminal_type is None ==> r.terminal_type == TerminalType::Sell
            &&& response.message.len() == 0 ==> r.status_text == response.status
            &&& response.message.len() > 0 ==> r.status_text == response.status + " — "@
                + response.message
        }),
{
}

/// Active reports of one time stand in the order in which they were added.
pub proof fn law_active_reports_of_one_time_keep_their_order(reports: Seq<ReportView>)
    ensures
        exists|positions: Seq<int>|
            #![trigger positions.len()]
            {
                &&& positions.len() == active_of(reports).len()
                &&& forall|k: int|
                    0 <= k < positions.len() ==> 0 <= #[trigger] positions[k] < reports.len()
                        && active_of(reports)[k] == reports[positions[k]]
                &&& forall|k: int, l: int|
                    0 <= k < l < positions.len() ==> {
                        let newer = reports[#[trigger] positions[k]].submitted_at;
                        let older = reports[#[trigger] positions[l]].submitted_at;
                        newer > older || (newer == older && positions[k] < positions[l])
                    }
            },
{
    let n = reports.len() as int;
    lemma_active_positions(reports, n);
    lemma_active_positions_grow(reports, n);
    let found = active_positions(reports, n);
    let keys = report_keys(reports, found);
    lemma_stable_order_exists(keys);
    let order = stable_order(keys);
    let positions = Seq::new(found.len(), |k: int| found[order[k]]);
    assert forall|k: int| 0 <= k < positions.len() implies 0 <= #[trigger] positions[k]
        < reports.len() && active_of(reports)[k] == reports[positions[k]] by {
        assert(0 <= order[k] < found.len());
        assert(0 <= found[order[k]] < n);
    }
    assert forall|k: int, l: int| 0 <= k < l < positions.len() implies {
        let newer = reports[#[trigger] positions[k]].submitted_at;
        let older = reports[#[trigger] positions[l]].submitted_at;
        newer > older || (newer == older && positions[k] < positions[l])
    } by {
        assert(precedes(keys, order[k], order[l]));
        assert(positions[k] == found[order[k]] && positions[l] == found[order[l]]);
    }
    assert(positions.len() == active_of(reports).len());
}

proof fn lemma_active_positions_grow(reports: Seq<ReportView>, n: int)
    requires
        0 <= n <= reports.len(),
    ensures
        forall|k: int, l: int|
            0 <= k < l < active_positions(reports, n).len() ==> #[trigger] active_positions(
                reports,
                n,
            )[k] < #[trigger] active_positions(reports, n)[l],
    decreases n,
{
    if n > 0 {
        lemma_active_positions_grow(reports, n - 1);
        lemma_active_positions(reports, n - 1);
    }
}

} // verus!
