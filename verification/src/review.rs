//! Reviewing an extraction: what the user's corrections do to it.

use vstd::prelude::*;

use crate::api::{
    field_ending, is_sent, law_sent_row_names_its_values, says, sent_row, states_row,
};
use crate::labels::{terminal_label, terminal_text};
use crate::model::{
    lemma_views_push, views, Commodity, CommodityView, Extraction, ExtractionView, TerminalType,
    TerminalView,
};
use crate::reference::{
    law_best_commodity_has_the_largest_score, Reference, ReferenceView, TerminalEntry,
};

verus! {

/// Chooses the terminal by hand.
pub fn choose_terminal(e: &mut Extraction, id: u32, name: &str)
    ensures
        final(e)@ == (ExtractionView {
            id_terminal: Some(id),
            terminal_name: Some(name@),
            ..old(e)@
        }),
{
    e.id_terminal = Some(id);
    e.terminal_name = Some(name.to_owned());
}

/// Chooses the type by hand.
pub fn choose_type(e: &mut Extraction, terminal_type: TerminalType)
    ensures
        final(e)@ == (ExtractionView { terminal_type: Some(terminal_type), ..old(e)@ }),
{
    e.terminal_type = Some(terminal_type);
}

/// The type that a selector starts with: the known one, else selling.
pub fn shown_type(e: &Extraction) -> (t: TerminalType)
    ensures
        t == match e@.terminal_type {
            Some(t) => t,
            None => TerminalType::Sell,
        },
{
    match e.terminal_type {
        Some(t) => t,
        None => TerminalType::Sell,
    }
}

/// The stock level that a selector starts with: the known one, else the lowest.
pub fn shown_status(row: &Commodity) -> (status: u8)
    ensures
        status == match row@.status {
            Some(status) => status,
            None => 1,
        },
{
    match row.status {
        Some(status) => status,
        None => 1,
    }
}

/// The number that a quantity field starts with: the known one, else 0.
pub fn shown_quantity(row: &Commodity) -> (quantity: u32)
    ensures
        quantity == match row@.quantity_scu {
            Some(quantity) => quantity,
            None => 0,
        },
{
    match row.quantity_scu {
        Some(quantity) => quantity,
        None => 0,
    }
}

/// The number that a price field starts with: the known one, else 0.
pub fn shown_price(row: &Commodity) -> (price: u32)
    ensures
        price == match row@.price {
            Some(price) => price,
            None => 0,
        },
{
    match row.price {
        Some(price) => price,
        None => 0,
    }
}

/// A row whose name was matched against the list again.
pub open spec fn rematched(row: CommodityView, reference: ReferenceView) -> CommodityView {
    match reference.best_commodity(row.name) {
        Some(found) => CommodityView {
            id_commodity: Some(found.id),
            name: found.name,
            name_confidence: found.score,
            ..row
        },
        None => row,
    }
}

/// Matches the name of a row, after it was edited, against the list.
pub fn rematch_name(row: &mut Commodity, reference: &Reference)
    ensures
        final(row)@ == rematched(old(row)@, reference@),
{
    if let Some(found) = reference.best_commodity(row.name.as_str()) {
        row.id_commodity = Some(found.id);
        row.name = found.name;
        row.name_confidence = found.score;
    }
}

/// Sets the stock level of a row.
pub fn edit_status(row: &mut Commodity, status: u8)
    ensures
        final(row)@ == (CommodityView { status: Some(status), ..old(row)@ }),
        final(row)@ == with_status(old(row)@, status),
{
    row.status = Some(status);
}

/// Sets the quantity of a row. What is entered by hand is trusted.
pub fn edit_quantity(row: &mut Commodity, quantity: u32)
    ensures
        final(row)@ == (CommodityView {
            quantity_scu: Some(quantity),
            quantity_confidence: if old(row)@.quantity_confidence == 0 {
                100
            } else {
                old(row)@.quantity_confidence
            },
            ..old(row)@
        }),
        final(row)@ == with_quantity(old(row)@, quantity),
{
    row.quantity_scu = Some(quantity);
    if row.quantity_confidence == 0 {
        row.quantity_confidence = 100;
    }
}

/// Sets the price of a row; 0 means that it is not known. What is entered by hand
/// is trusted.
pub fn edit_price(row: &mut Commodity, price: u32)
    ensures
        final(row)@ == (CommodityView {
            price: if price > 0 {
                Some(price)
            } else {
                None
            },
            price_confidence: 100,
            ..old(row)@
        }),
        final(row)@ == with_price(old(row)@, price),
{
    row.price = if price > 0 {
        Some(price)
    } else {
        None
    };
    row.price_confidence = 100;
}

/// Deletes a row.
pub fn delete_row(e: &mut Extraction, i: usize)
    requires
        i < old(e)@.commodities.len(),
    ensures
        final(e)@ == (ExtractionView {
            commodities: old(e)@.commodities.remove(i as int),
            ..old(e)@
        }),
{
    let ghost before = e@.commodities;
    e.commodities.remove(i);
    assert(e@.commodities =~= before.remove(i as int));
}

/// Adds an empty row.
pub fn add_row(e: &mut Extraction)
    ensures
        final(e)@ == (ExtractionView {
            commodities: old(e)@.commodities.push(CommodityView::named(""@)),
            ..old(e)@
        }),
{
    let row = Commodity::new("");
    proof {
        lemma_views_push(e.commodities@, row);
    }
    e.commodities.push(row);
}

/// The first terminal of a list that has the id.
pub open spec fn listed(terminals: Seq<TerminalView>, id: u32) -> Option<TerminalView>
    decreases terminals.len(),
{
    if terminals.len() == 0 {
        None
    } else {
        match listed(terminals.drop_last(), id) {
            Some(t) => Some(t),
            None => if terminals.last().id == id {
                Some(terminals.last())
            } else {
                None
            },
        }
    }
}

/// What the terminal selector shows: the chosen terminal with its operator and star
/// system where the list has it, else its name, else an invitation to choose.
pub open spec fn selected_text(e: ExtractionView, terminals: Seq<TerminalView>) -> Seq<char> {
    let found = match e.id_terminal {
        Some(id) => listed(terminals, id),
        None => None,
    };
    match found {
        Some(t) => terminal_text(t.name, t.operator, t.system),
        None => match e.terminal_name {
            Some(name) => name,
            None => "· select ·"@,
        },
    }
}

/// What the terminal selector shows.
pub fn selected_terminal(e: &Extraction, terminals: &Vec<TerminalEntry>) -> (r: String)
    ensures
        r@ == selected_text(e@, views(terminals@)),
{
    if let Some(id) = e.id_terminal {
        let ghost all = views(terminals@);
        let mut i: usize = 0;
        while i < terminals.len()
            invariant
                i <= terminals.len(),
                e@.id_terminal == Some(id),
                all == views(terminals@),
                listed(all.take(i as int), id) is None,
            decreases terminals.len() - i,
        {
            let t = &terminals[i];
            proof {
                assert(all.take(i + 1).drop_last() =~= all.take(i as int));
                assert(all.take(i + 1).last() == t@);
            }
            if t.id == id {
                proof {
                    lemma_listed_prefix(all, id, i + 1);
                }
                return terminal_label(t.name.as_str(), &t.operator, t.system.as_str());
            }
            i += 1;
        }
        assert(all.take(i as int) =~= all);
    }
    match &e.terminal_name {
        Some(name) => name.clone(),
        None => "· select ·".to_owned(),
    }
}

proof fn lemma_listed_prefix(terminals: Seq<TerminalView>, id: u32, n: int)
    requires
        0 <= n <= terminals.len(),
        listed(terminals.take(n), id) is Some,
    ensures
        listed(terminals, id) == listed(terminals.take(n), id),
    decreases terminals.len() - n,
{
    if n == terminals.len() {
        assert(terminals.take(n) =~= terminals);
    } else {
        assert(terminals.take(n + 1).drop_last() =~= terminals.take(n));
        lemma_listed_prefix(terminals, id, n + 1);
    }
}

/// A corrected row keeps its commodity and is sent with the corrected price.
pub proof fn law_price_correction_is_sent(
    before: CommodityView,
    after: CommodityView,
    price: u32,
)
    requires
        before.id_commodity is Some,
        before.included,
        price > 0,
        after == (CommodityView { price: Some(price), price_confidence: 100, ..before }),
    ensures
        crate::api::is_sent(after),
        forall|t: TerminalType| #[trigger]
            crate::api::sent_row(after, t)[1].1 == price && crate::api::sent_row(after, t)[0]
                == crate::api::sent_row(before, t)[0],
{
}

/// A row after its stock level was set by hand.
pub open spec fn with_status(row: CommodityView, status: u8) -> CommodityView {
    CommodityView { status: Some(status), ..row }
}

/// A row after its quantity was set by hand.
pub open spec fn with_quantity(row: CommodityView, quantity: u32) -> CommodityView {
    CommodityView {
        quantity_scu: Some(quantity),
        quantity_confidence: if row.quantity_confidence == 0 {
            100
        } else {
            row.quantity_confidence
        },
        ..row
    }
}

/// A row after its price was set by hand.
pub open spec fn with_price(row: CommodityView, price: u32) -> CommodityView {
    CommodityView {
        price: if price > 0 {
            Some(price)
        } else {
            None
        },
        price_confidence: 100,
        ..row
    }
}

/// What is entered by hand is what is sent, under its name, and the other values are sent as
/// they were; it is trusted, and a row with it never counts as less sure for it.
pub proof fn law_corrections_are_sent(
    row: CommodityView,
    status: u8,
    quantity: u32,
    price: u32,
    t: TerminalType,
)
    requires
        row.id_commodity is Some,
    ensures
        ({
            let ending = field_ending(t);
            &&& says(sent_row(with_price(row, price), t), "price_"@ + ending, price as int)
            &&& says(sent_row(with_quantity(row, quantity), t), "scu_"@ + ending, quantity as int)
            &&& says(sent_row(with_status(row, status), t), "status_"@ + ending, status as int)
            &&& states_row(
                sent_row(with_price(row, price), t),
                CommodityView {
                    price: if price > 0 {
                        Some(price)
                    } else {
                        None
                    },
                    ..row
                },
                t,
            )
            &&& states_row(
                sent_row(with_quantity(row, quantity), t),
                CommodityView { quantity_scu: Some(quantity), ..row },
                t,
            )
            &&& states_row(
                sent_row(with_status(row, status), t),
                CommodityView { status: Some(status), ..row },
                t,
            )
            &&& row.included ==> is_sent(with_quantity(row, quantity)) && is_sent(
                with_status(row, status),
            ) && (price > 0 ==> is_sent(with_price(row, price)))
            &&& with_price(row, price).price_confidence == 100
            &&& with_quantity(row, quantity).quantity_confidence > 0
            &&& row.quantity_confidence > 0 ==> with_quantity(row, quantity).quantity_confidence
                == row.quantity_confidence
            &&& with_price(row, price).name == row.name && with_quantity(row, quantity).name
                == row.name && with_status(row, status).name == row.name
            &&& with_price(row, price).included == row.included && with_quantity(
                row,
                quantity,
            ).included == row.included && with_status(row, status).included == row.included
        }),
{
    law_sent_row_names_its_values(with_price(row, price), t);
    law_sent_row_names_its_values(with_quantity(row, quantity), t);
    law_sent_row_names_its_values(with_status(row, status), t);
}

/// An edited name becomes the commodity that it matches best, whatever that is, and nothing
/// else of the row changes; without a list the row stays as it is.
pub proof fn law_edited_names_are_matched(row: CommodityView, reference: ReferenceView)
    ensures
        ({
            let after = rematched(row, reference);
            match reference.best_commodity(row.name) {
                Some(found) => {
                    &&& after.id_commodity == Some(found.id)
                    &&& after.name == found.name
                    &&& after.name_confidence == found.score
                    &&& after == (CommodityView {
                        id_commodity: after.id_commodity,
                        name: after.name,
                        name_confidence: after.name_confidence,
                        ..row
                    })
                },
                None => after == row && reference.commodities.len() == 0,
            }
        }),
{
    law_best_commodity_has_the_largest_score(reference, row.name);
}

/// The terminal selector shows the first terminal of the list with the chosen id, and where
/// there is none the name of the extraction.
pub proof fn law_selector_shows_the_chosen_terminal(
    e: ExtractionView,
    terminals: Seq<TerminalView>,
    k: int,
)
    ensures
        0 <= k < terminals.len() && e.id_terminal == Some(terminals[k].id) && (forall|j: int|
            0 <= j < k ==> (#[trigger] terminals[j]).id != terminals[k].id) ==> selected_text(
            e,
            terminals,
        ) == terminal_text(terminals[k].name, terminals[k].operator, terminals[k].system),
        (e.id_terminal is None || forall|j: int|
            0 <= j < terminals.len() ==> Some((#[trigger] terminals[j]).id) != e.id_terminal)
            && e.terminal_name is Some ==> selected_text(e, terminals) == e.terminal_name->0,
{
    if e.id_terminal is Some {
        let id = e.id_terminal->0;
        if 0 <= k < terminals.len() && terminals[k].id == id && (forall|j: int|
            0 <= j < k ==> (#[trigger] terminals[j]).id != terminals[k].id) {
            let prefix = terminals.take(k);
            assert forall|j: int| 0 <= j < prefix.len() implies (#[trigger] prefix[j]).id != id by {
                assert(prefix[j] == terminals[j]);
            }
            lemma_not_listed(prefix, id);
            assert(terminals.take(k + 1).drop_last() =~= prefix);
            assert(terminals.take(k + 1).last() == terminals[k]);
            lemma_listed_prefix(terminals, id, k + 1);
        }
        if forall|j: int|
            0 <= j < terminals.len() ==> Some((#[trigger] terminals[j]).id) != e.id_terminal {
            assert forall|j: int| 0 <= j < terminals.len() implies (#[trigger] terminals[j]).id
                != id by {
                assert(Some(terminals[j].id) != e.id_terminal);
            }
            lemma_not_listed(terminals, id);
        }
    }
}

proof fn lemma_not_listed(terminals: Seq<TerminalView>, id: u32)
    requires
        forall|j: int| 0 <= j < terminals.len() ==> (#[trigger] terminals[j]).id != id,
    ensures
        listed(terminals, id) is None,
    decreases terminals.len(),
{
    if terminals.len() > 0 {
        let shorter = terminals.drop_last();
        assert forall|j: int| 0 <= j < shorter.len() implies (#[trigger] shorter[j]).id != id by {
            assert(shorter[j] == terminals[j]);
        }
        lemma_not_listed(shorter, id);
        assert(terminals[terminals.len() - 1].id != id);
    }
}

} // verus!
