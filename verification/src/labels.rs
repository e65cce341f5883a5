//! The texts that screens show: amounts, terminals, messages.

use vstd::prelude::*;

use crate::api::{
    sent_count, submittable_row_count, ResponseView, SubmitResponse, TradeResponse,
    TradeResponseView,
};
use crate::model::{text_of, views, Extraction, ExtractionView};
use crate::number::{decimal, push_decimal, push_signed, signed_decimal};
use crate::text::{
    append_chars, chars_of, has, lower, occurs, push_text, slice_chars, string_of, to_lower,
};

verus! {

/// Digits with a comma before every group of three.
pub open spec fn grouped(digits: Seq<char>) -> Seq<char>
    decreases digits.len(),
{
    if digits.len() <= 3 {
        digits
    } else {
        grouped(digits.take(digits.len() - 3)) + ","@ + digits.skip(digits.len() - 3)
    }
}

/// An amount with thousands separators.
pub open spec fn amount_text(n: int) -> Seq<char> {
    if n < 0 {
        "-"@ + grouped(decimal((-n) as nat)) + " aUEC"@
    } else {
        grouped(decimal(n as nat)) + " aUEC"@
    }
}

fn push_grouped(v: &mut Vec<char>, digits: &Vec<char>)
    ensures
        final(v)@ == old(v)@ + grouped(digits@),
    decreases digits@.len(),
{
    if digits.len() <= 3 {
        append_chars(v, digits);
    } else {
        let n: usize = digits.len() - 3;
        let head = slice_chars(digits, 0, n);
        let tail = slice_chars(digits, n, digits.len());
        assert(head@ =~= digits@.take(n as int));
        assert(tail@ =~= digits@.skip(n as int));
        push_grouped(v, &head);
        push_text(v, ",");
        append_chars(v, &tail);
        assert(v@ =~= old(v)@ + grouped(digits@));
    }
}

/// An amount of whole aUEC with thousands separators.
pub fn fmt_auec(n: i64) -> (r: String)
    ensures
        r@ == amount_text(n as int),
{
    let mut v: Vec<char> = Vec::new();
    if n < 0 {
        push_text(&mut v, "-");
    }
    let magnitude: u64 = if n < 0 {
        (-(n as i128)) as u64
    } else {
        n as u64
    };
    let mut digits: Vec<char> = Vec::new();
    push_decimal(&mut digits, magnitude);
    push_grouped(&mut v, &digits);
    push_text(&mut v, " aUEC");
    assert(v@ =~= amount_text(n as int));
    string_of(&v)
}

/// The name of a terminal with its operator in front and its star system behind,
/// as far as they are known.
pub open spec fn terminal_text(
    name: Seq<char>,
    operator: Option<Seq<char>>,
    system: Seq<char>,
) -> Seq<char> {
    let base = match operator {
        Some(operator) => if operator.len() > 0 {
            operator + " · "@ + name
        } else {
            name
        },
        None => name,
    };
    if system.len() == 0 {
        base
    } else {
        base + " — "@ + system
    }
}

/// A label that tells apart terminals of one name, as in
/// "Admin · Nyx Gateway — Pyro".
pub fn terminal_label(name: &str, operator: &Option<String>, system: &str) -> (r: String)
    ensures
        r@ == terminal_text(name@, text_of(*operator), system@),
{
    let mut v: Vec<char> = Vec::new();
    if let Some(operator) = operator {
        let o = chars_of(operator.as_str());
        if o.len() > 0 {
            append_chars(&mut v, &o);
            push_text(&mut v, " · ");
        }
    }
    push_text(&mut v, name);
    let s = chars_of(system);
    if s.len() > 0 {
        push_text(&mut v, " — ");
        append_chars(&mut v, &s);
    }
    assert(v@ =~= terminal_text(name@, text_of(*operator), system@));
    string_of(&v)
}

/// How far a confidence can be trusted.
#[derive(Clone, Copy, Debug, PartialEq, Eq, Structural)]
pub enum Trust {
    Good,
    Doubtful,
    Bad,
}

/// The trust that a confidence deserves, by which rows are coloured.
pub fn trust(confidence: u8) -> (t: Trust)
    ensures
        t == if confidence >= 85 {
            Trust::Good
        } else if confidence >= 65 {
            Trust::Doubtful
        } else {
            Trust::Bad
        },
{
    if confidence >= 85 {
        Trust::Good
    } else if confidence >= 65 {
        Trust::Doubtful
    } else {
        Trust::Bad
    }
}

/// A list of texts as `Debug` of the standard library writes it.
pub uninterp spec fn debug_list_of(texts: Seq<Seq<char>>) -> Seq<char>;

/// `std::fmt::Debug` of `Vec<String>`, by `std::format`: the texts in quotes and
/// brackets. The outcome depends on the texts alone; how characters are escaped
/// is left to the standard library.
#[verifier::external_body]
fn debug_list(texts: &Vec<String>) -> (r: String)
    ensures
        r@ == debug_list_of(views(texts@)),
{
    format!("{:?}", texts)
}

/// What to say of a response to a report, given the list of report ids as text.
pub open spec fn report_message_of(
    e: ExtractionView,
    response: ResponseView,
    ids: Seq<char>,
) -> Seq<char> {
    if response.dry_run {
        "Dry run OK — "@ + decimal(sent_count(e.commodities)) + " row(s) prepared"@
    } else if response.ok() {
        "Submitted — reports "@ + ids
    } else if response.message.len() == 0 {
        "Rejected — "@ + response.status + " (http "@ + decimal(response.http_code as nat) + ")"@
    } else {
        "Rejected — "@ + response.status + " — "@ + response.message
    }
}

/// What to say of a response to a report, given the list of report ids as text.
pub fn report_message_with(e: &Extraction, response: &SubmitResponse, ids: &str) -> (r: String)
    ensures
        r@ == report_message_of(e@, response@, ids@),
{
    let mut v: Vec<char>;
    if response.dry_run {
        v = chars_of("Dry run OK — ");
        push_decimal(&mut v, submittable_row_count(e) as u64);
        push_text(&mut v, " row(s) prepared");
    } else if response.is_ok() {
        v = chars_of("Submitted — reports ");
        push_text(&mut v, ids);
    } else {
        v = chars_of("Rejected — ");
        push_text(&mut v, response.status.as_str());
        if chars_of(response.message.as_str()).len() == 0 {
            push_text(&mut v, " (http ");
            push_decimal(&mut v, response.http_code as u64);
            push_text(&mut v, ")");
        } else {
            push_text(&mut v, " — ");
            push_text(&mut v, response.message.as_str());
        }
    }
    string_of(&v)
}

/// What to say of a response to a report.
pub fn report_message(e: &Extraction, response: &SubmitResponse) -> (r: String)
    ensures
        r@ == report_message_of(e@, response@, debug_list_of(response@.ids_reports)),
{
    let ids = debug_list(&response.ids_reports);
    report_message_with(e, response, ids.as_str())
}

/// An optional number as the program's own messages write it.
pub open spec fn optional_number(n: Option<i64>) -> Seq<char> {
    match n {
        Some(n) => "Some("@ + signed_decimal(n as int) + ")"@,
        None => "None"@,
    }
}

/// What to say of a response to a trade.
pub open spec fn trade_message_of(response: TradeResponseView) -> Seq<char> {
    if response.dry_run {
        "Trade logged (dry run — not sent to UEX)"@
    } else if response.ok() {
        "Trade synced (UEX #"@ + optional_number(response.id_user_trade) + ")"@
    } else {
        "UEX rejected trade: "@ + response.status
    }
}

/// What to say of a response to a trade.
pub fn trade_message(response: &TradeResponse) -> (r: String)
    ensures
        r@ == trade_message_of(response@),
{
    let mut v: Vec<char>;
    if response.dry_run {
        v = chars_of("Trade logged (dry run — not sent to UEX)");
    } else if response.is_ok() {
        v = chars_of("Trade synced (UEX #");
        match response.id_user_trade {
            Some(n) => {
                push_text(&mut v, "Some(");
                push_signed(&mut v, n);
                push_text(&mut v, ")");
            },
            None => {
                push_text(&mut v, "None");
            },
        }
        push_text(&mut v, ")");
        assert(v@ =~= trade_message_of(response@));
    } else {
        v = chars_of("UEX rejected trade: ");
        push_text(&mut v, response.status.as_str());
    }
    string_of(&v)
}

/// The title of an extraction that awaits review.
pub fn pending_title(e: &Extraction, file_name: &str) -> (r: String)
    ensures
        r@ == file_name@ + "  —  "@ + (match e@.terminal_name {
            Some(name) => name,
            None => "· pick terminal ·"@,
        }) + "  ("@ + decimal(e@.commodities.len()) + " rows)"@,
{
    let mut v = chars_of(file_name);
    push_text(&mut v, "  —  ");
    match &e.terminal_name {
        Some(name) => push_text(&mut v, name.as_str()),
        None => push_text(&mut v, "· pick terminal ·"),
    }
    push_text(&mut v, "  (");
    push_decimal(&mut v, e.commodities.len() as u64);
    push_text(&mut v, " rows)");
    string_of(&v)
}

/// Whether an item passes a filter: the filter is empty, or stands in the name or
/// in the star system, whatever the case.
pub open spec fn passes(filter: Seq<char>, name: Seq<char>, system: Seq<char>) -> bool {
    filter.len() == 0 || occurs(lower(name), lower(filter)) || occurs(
        lower(system),
        lower(filter),
    )
}

/// How many items a filtered list shows at most.
pub const MAX_SHOWN: usize = 400;

/// The positions of the first items, up to `MAX_SHOWN`, that pass a filter.
pub open spec fn shown(filter: Seq<char>, items: Seq<(String, String)>) -> Seq<int>
    decreases items.len(),
{
    if items.len() == 0 {
        Seq::empty()
    } else {
        let before = shown(filter, items.drop_last());
        let item = items.last();
        if before.len() < MAX_SHOWN && passes(filter, item.0@, item.1@) {
            before.push(items.len() - 1)
        } else {
            before
        }
    }
}

/// Picks the items, given as names and star systems, that a filtered list shows.
pub fn filter_items(filter: &str, items: &Vec<(String, String)>) -> (r: Vec<usize>)
    ensures
        crate::order::as_ints(r@) == shown(filter@, items@),
        r@.len() <= MAX_SHOWN,
        forall|k: int| 0 <= k < r@.len() ==> #[trigger] r@[k] < items@.len(),
{
    let f = to_lower(&chars_of(filter));
    let f = string_of(&f);
    let everything = chars_of(filter).len() == 0;
    let mut r: Vec<usize> = Vec::new();
    let mut i: usize = 0;
    assert(crate::order::as_ints(r@) =~= Seq::empty());
    while i < items.len()
        invariant
            i <= items.len(),
            f@ == lower(filter@),
            everything == (filter@.len() == 0),
            crate::order::as_ints(r@) == shown(filter@, items@.take(i as int)),
            r@.len() <= MAX_SHOWN,
            forall|k: int| 0 <= k < r@.len() ==> #[trigger] r@[k] < i,
        decreases items.len() - i,
    {
        proof {
            assert(items@.take(i + 1).drop_last() =~= items@.take(i as int));
        }
        if r.len() < MAX_SHOWN {
            let item = &items[i];
            let pass = everything || has(&to_lower(&chars_of(item.0.as_str())), f.as_str()) || has(
                &to_lower(&chars_of(item.1.as_str())),
                f.as_str(),
            );
            if pass {
                let ghost before = crate::order::as_ints(r@);
                r.push(i);
                assert(crate::order::as_ints(r@) =~= before.push(i as int));
            }
        }
        i += 1;
    }
    assert(items@.take(i as int) =~= items@);
    r
}

/// A grouped number has its digits in their order, and a comma before every third digit
/// from the end, but none in front.
pub proof fn law_commas_stand_before_every_third_digit(digits: Seq<char>)
    requires
        forall|i: int| 0 <= i < digits.len() ==> #[trigger] digits[i] != ',',
    ensures
        ({
            let g = grouped(digits);
            &&& g.len() == if digits.len() == 0 {
                0
            } else {
                digits.len() + (digits.len() - 1) / 3
            }
            &&& forall|k: int|
                0 <= k < g.len() ==> #[trigger] g[g.len() - 1 - k] == if k % 4 == 3 {
                    ','
                } else {
                    digits[digits.len() - 1 - (k - k / 4)]
                }
        }),
    decreases digits.len(),
{
    reveal_strlit(",");
    let g = grouped(digits);
    if digits.len() > 3 {
        let head = digits.take(digits.len() - 3);
        let tail = digits.skip(digits.len() - 3);
        law_commas_stand_before_every_third_digit(head);
        let h = grouped(head);
        assert(g == h + ","@ + tail);
        assert(g.len() == h.len() + 4);
        assert forall|k: int| 0 <= k < g.len() implies #[trigger] g[g.len() - 1 - k] == if k % 4
            == 3 {
            ','
        } else {
            digits[digits.len() - 1 - (k - k / 4)]
        } by {
            if k < 3 {
                assert(g[g.len() - 1 - k] == tail[2 - k]);
            } else if k > 3 {
                let l = k - 4;
                assert(g[g.len() - 1 - k] == h[h.len() - 1 - l]);
                assert(l % 4 == k % 4 && l / 4 == k / 4 - 1);
            }
        }
    }
}

/// A filtered list shows the items whose name or star system has the filter in it, in upper
/// or lower case, and all items where the filter is empty: the first four hundred of them,
/// in their order.
pub proof fn law_first_passing_items_are_shown(
    filter: Seq<char>,
    items: Seq<(String, String)>,
)
    ensures
        ({
            let found = shown(filter, items);
            &&& found.len() <= 400
            &&& forall|k: int|
                0 <= k < found.len() ==> 0 <= #[trigger] found[k] < items.len() && passes_filter(
                    filter,
                    items[found[k]],
                )
            &&& forall|k: int, l: int|
                0 <= k < l < found.len() ==> #[trigger] found[k] < #[trigger] found[l]
            &&& forall|i: int|
                0 <= i < items.len() && #[trigger] passes_filter(filter, items[i])
                    ==> found.contains(i) || (found.len() == 400 && found.last() < i)
        }),
    decreases items.len(),
{
    if items.len() > 0 {
        let shorter = items.drop_last();
        law_first_passing_items_are_shown(filter, shorter);
        let before = shown(filter, shorter);
        let found = shown(filter, items);
        let last = items.len() - 1;
        assert(passes(filter, items.last().0@, items.last().1@) <==> passes_filter(
            filter,
            items[last],
        ));
        assert forall|k: int| 0 <= k < found.len() implies 0 <= #[trigger] found[k] < items.len()
            && passes_filter(filter, items[found[k]]) by {
            if k < before.len() {
                assert(found[k] == before[k]);
                assert(shorter[before[k]] == items[before[k]]);
            }
        }
        assert forall|i: int|
            0 <= i < items.len() && #[trigger] passes_filter(filter, items[i]) implies
            found.contains(i) || (found.len() == 400 && found.last() < i) by {
            if i < last {
                assert(shorter[i] == items[i]);
                assert(passes_filter(filter, shorter[i]));
                if before.contains(i) {
                    let k = choose|k: int| 0 <= k < before.len() && before[k] == i;
                    assert(found[k] == i);
                }
            } else if before.len() < 400 {
                assert(found[found.len() - 1] == i);
            } else {
                assert(before[before.len() - 1] < last);
            }
        }
    }
}

/// An item has the filter in its name or in its star system, or the filter is empty.
pub open spec fn passes_filter(filter: Seq<char>, item: (String, String)) -> bool {
    ||| filter.len() == 0
    ||| occurs(lower(item.0@), lower(filter))
    ||| occurs(lower(item.1@), lower(filter))
}

} // verus!
