//! Processing one screenshot: when it was taken, and what its passes give
//! together.

use vstd::prelude::*;

use crate::merge::{
    keeps_order, law_merge_keeps_order, law_merge_takes_the_surer_terminal, merge, merged,
};
use crate::model::{copy_terminals, copy_text, Extraction, ExtractionView};
use crate::number::digits_value;
use crate::paths::{file_name_of, name_chars, stem, stem_of};
use crate::text::{chars_of, is_digit, slice_chars, stands_at, starts_with, string_of};

verus! {

/// The time of capture as file names state it.
pub const STAMP_FORMAT: &'static str = "%Y-%m-%d_%H-%M-%S";

/// The Unix time that `text` states in the given format, taken as UTC.
pub uninterp spec fn time_of(text: Seq<char>, format: Seq<char>) -> Option<i64>;

/// A leap year of the Gregorian calendar.
pub open spec fn is_leap(year: int) -> bool {
    year % 4 == 0 && (year % 100 != 0 || year % 400 == 0)
}

/// The days of a month.
pub open spec fn days_in(year: int, month: int) -> int {
    if month == 2 {
        if is_leap(year) {
            29
        } else {
            28
        }
    } else if month == 4 || month == 6 || month == 9 || month == 11 {
        30
    } else {
        31
    }
}

/// The days of a year that come before a month.
pub open spec fn days_before_month(year: int, month: int) -> int
    decreases month,
{
    if month <= 1 {
        0
    } else {
        days_before_month(year, month - 1) + days_in(year, month - 1)
    }
}

/// The days of the calendar, counted from the year 0, that come before a year.
pub open spec fn days_before_year(year: int) -> int {
    365 * year + (year + 3) / 4 - (year + 99) / 100 + (year + 399) / 400
}

/// The number in a field of a time stamp.
pub open spec fn field(s: Seq<char>, from: int, to: int) -> int {
    digits_value(s.subrange(from, to)) as int
}

/// A time stamp such as `2026-08-12_22-20-24`, of a day and a time that exist.
pub open spec fn is_stamp(s: Seq<char>) -> bool {
    &&& s.len() == 19
    &&& forall|i: int|
        0 <= i < 19 ==> if i == 4 || i == 7 || i == 13 || i == 16 {
            #[trigger] s[i] == '-'
        } else if i == 10 {
            s[i] == '_'
        } else {
            is_digit(s[i])
        }
    &&& 1 <= field(s, 5, 7) <= 12
    &&& 1 <= field(s, 8, 10) <= days_in(field(s, 0, 4), field(s, 5, 7))
    &&& field(s, 11, 13) < 24
    &&& field(s, 14, 16) < 60
    &&& field(s, 17, 19) < 60
}

/// The Unix time of a time stamp. 719528 days come before 1970.
pub open spec fn stamp_seconds(s: Seq<char>) -> int {
    let year = field(s, 0, 4);
    let days = days_before_year(year) + days_before_month(year, field(s, 5, 7)) + field(s, 8, 10)
        - 1 - 719528;
    days * 86400 + field(s, 11, 13) * 3600 + field(s, 14, 16) * 60 + field(s, 17, 19)
}

/// `chrono::NaiveDateTime::parse_from_str`, with the result taken as UTC
/// (`chrono::TimeZone::from_utc_datetime`) and turned into seconds
/// (`chrono::DateTime::timestamp`). The result depends on the text and the format
/// alone. Of a full time stamp of a day and a time that exist it is that time;
/// what else is accepted is left to the chrono crate.
#[verifier::external_body]
fn read_time(text: &str, format: &str) -> (r: Option<i64>)
    ensures
        r == time_of(text@, format@),
        format@ == STAMP_FORMAT@ && is_stamp(text@) ==> r is Some && r->0 == stamp_seconds(text@),
{
    let time = chrono::NaiveDateTime::parse_from_str(text, format).ok()?;
    Some(chrono::TimeZone::from_utc_datetime(&chrono::Utc, &time).timestamp())
}

/// The part of a file stem that states the time: the first 19 characters behind
/// the prefix.
pub open spec fn stamp_of(stem: Seq<char>) -> Seq<char> {
    let rest = if starts_with(stem, "ScreenShot-"@) {
        stem.skip("ScreenShot-"@.len() as int)
    } else {
        stem
    };
    if rest.len() < 19 {
        rest
    } else {
        rest.take(19)
    }
}

/// The time that the file name at a path states.
pub open spec fn capture_time(path: Seq<char>) -> Option<i64> {
    match file_name_of(path) {
        Some(name) => time_of(stamp_of(stem_of(name)), STAMP_FORMAT@),
        None => None,
    }
}

/// Reads the time of capture off the name of a screenshot, as in
/// `ScreenShot-2026-08-12_22-20-24-284.jpg`. The last group is ignored.
pub fn parse_capture_time(path: &str) -> (r: Option<i64>)
    ensures
        r == capture_time(path@),
        file_name_of(path@) is Some && is_stamp(stamp_of(stem_of(file_name_of(path@)->0))) ==> r
            is Some && r->0 == stamp_seconds(stamp_of(stem_of(file_name_of(path@)->0))),
{
    match name_chars(path) {
        Some(name) => {
            let s = stem(&name);
            let prefix = chars_of("ScreenShot-");
            let rest = if stands_at(&s, &prefix, 0) {
                let rest = slice_chars(&s, prefix.len(), s.len());
                assert(rest@ =~= s@.skip(prefix@.len() as int));
                rest
            } else {
                s
            };
            let n: usize = if rest.len() < 19 {
                rest.len()
            } else {
                19
            };
            let core = slice_chars(&rest, 0, n);
            assert(core@ =~= stamp_of(stem_of(name@)));
            read_time(string_of(&core).as_str(), STAMP_FORMAT)
        },
        None => None,
    }
}

/// Whether the terminal is the one of the raw pass: where it names one, and the panel
/// pass names none or is not surer.
pub open spec fn raw_names_terminal(raw: ExtractionView, panel: ExtractionView) -> bool {
    raw.id_terminal is Some && (panel.id_terminal is None || panel.terminal_confidence
        <= raw.terminal_confidence)
}

/// What the passes over a screenshot give together: the rows of both, those of the
/// panel pass, where there is one, going first, and the terminal of the raw pass
/// unless the panel pass is surer of one.
pub open spec fn combined(raw: ExtractionView, panel: Option<ExtractionView>) -> ExtractionView {
    match panel {
        Some(panel) => if raw_names_terminal(raw, panel) {
            ExtractionView {
                terminal_name: raw.terminal_name,
                id_terminal: raw.id_terminal,
                terminal_confidence: raw.terminal_confidence,
                terminal_candidates: raw.terminal_candidates,
                ..merged(panel, raw)
            }
        } else {
            merged(panel, raw)
        },
        None => raw,
    }
}

/// Combines the passes over a screenshot: the raw full frame, which reads the
/// terminal best, and the rectified panel, which reads the commodities best. The
/// panel pass is missing where the panel could not be cut out or read.
pub fn combine_passes(raw: Extraction, panel: Option<Extraction>) -> (r: Extraction)
    ensures
        r@ == combined(
            raw@,
            match panel {
                Some(panel) => Some(panel@),
                None => None,
            },
        ),
{
    match panel {
        Some(panel) => {
            let mut panel = panel;
            if let Some(id) = raw.id_terminal {
                if panel.id_terminal.is_none() || panel.terminal_confidence
                    <= raw.terminal_confidence {
                    // The raw pass goes second: on a tie its terminal would be lost.
                    panel.terminal_name = copy_text(&raw.terminal_name);
                    panel.id_terminal = Some(id);
                    panel.terminal_confidence = raw.terminal_confidence;
                    panel.terminal_candidates = copy_terminals(&raw.terminal_candidates);
                }
            }
            merge(panel, raw)
        },
        None => raw,
    }
}

/// A terminal that the raw pass names stays, unless the panel pass is surer of
/// another.
pub proof fn law_raw_terminal_stays(raw: ExtractionView, panel: ExtractionView)
    requires
        raw.id_terminal is Some,
        panel.id_terminal is None || panel.terminal_confidence <= raw.terminal_confidence,
    ensures
        combined(raw, Some(panel)).id_terminal == raw.id_terminal,
        combined(raw, Some(panel)).terminal_name == raw.terminal_name,
        combined(raw, Some(panel)).terminal_confidence == raw.terminal_confidence,
        combined(raw, Some(panel)).terminal_candidates == raw.terminal_candidates,
{
}

/// The passes together have the rows of both, the panel's going first, and the type that
/// the panel shows, or else the raw frame. The terminal is the one that a pass is surer
/// of, and the raw frame's where they are alike.
pub proof fn law_passes_complete_each_other(raw: ExtractionView, panel: ExtractionView)
    ensures
        ({
            let r = combined(raw, Some(panel));
            let taken = |e: ExtractionView|
                r.id_terminal == e.id_terminal && r.terminal_name == e.terminal_name
                    && r.terminal_confidence == e.terminal_confidence && r.terminal_candidates
                    == e.terminal_candidates;
            &&& match (raw.id_terminal, panel.id_terminal) {
                (Some(_), Some(_)) => if raw.terminal_confidence >= panel.terminal_confidence {
                    taken(raw)
                } else {
                    taken(panel)
                },
                (Some(_), None) => taken(raw),
                (None, _) => taken(panel),
            }
            &&& r.commodities == merged(panel, raw).commodities
            &&& keeps_order(r.commodities, panel.commodities)
            &&& r.terminal_type == match panel.terminal_type {
                Some(t) => Some(t),
                None => raw.terminal_type,
            }
            &&& r.screenshot == panel.screenshot
            &&& r.captured_at == panel.captured_at
        }),
        combined(raw, None) == raw,
{
    law_merge_keeps_order(panel, raw);
    law_merge_takes_the_surer_terminal(panel, raw);
}

/// A year has 365 days, and 366 where it is a leap year; its months make it up.
pub proof fn law_years_have_their_days(year: int)
    requires
        year >= 0,
    ensures
        days_before_year(year + 1) - days_before_year(year) == if year % 4 == 0 && (year % 100 != 0
            || year % 400 == 0) {
            366int
        } else {
            365int
        },
        days_before_year(year + 1) - days_before_year(year) == days_before_month(year, 12)
            + days_in(year, 12),
{
    reveal_with_fuel(days_before_month, 13);
}

/// The time that a file name states does not depend on its prefix, nor on what follows
/// the nineteen characters of the time.
pub proof fn law_stamp_is_behind_the_prefix(stamp: Seq<char>, rest: Seq<char>)
    requires
        stamp.len() == 19,
        !starts_with(stamp + rest, "ScreenShot-"@),
    ensures
        stamp_of("ScreenShot-"@ + stamp + rest) == stamp,
        stamp_of(stamp + rest) == stamp,
{
    let whole = "ScreenShot-"@ + stamp + rest;
    let n = "ScreenShot-"@.len() as int;
    assert(whole.subrange(0, n) =~= "ScreenShot-"@);
    assert(starts_with(whole, "ScreenShot-"@));
    assert(whole.skip(n) =~= stamp + rest);
    assert((stamp + rest).take(19) =~= stamp);
}

} // verus!
