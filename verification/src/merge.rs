//! Merging the extractions of two passes over one screenshot.

use vstd::prelude::*;

use crate::model::{lemma_views_push, views, Commodity, CommodityView, Extraction, ExtractionView};

verus! {

/// The first row of a commodity.
pub open spec fn first_with(rows: Seq<CommodityView>, id: u32) -> Option<CommodityView>
    decreases rows.len(),
{
    if rows.len() == 0 {
        None
    } else {
        match first_with(rows.drop_last(), id) {
            Some(row) => Some(row),
            None => if rows.last().id_commodity == Some(id) {
                Some(rows.last())
            } else {
                None
            },
        }
    }
}

/// Some row is of the commodity.
pub open spec fn has_id(rows: Seq<CommodityView>, id: u32) -> bool {
    first_with(rows, id) is Some
}

/// A row with whatever is better in another row of the same commodity: a name,
/// price or quantity with a higher confidence, and what is missing.
pub open spec fn merged_row(base: CommodityView, other: CommodityView) -> CommodityView {
    let name = other.name_confidence > base.name_confidence;
    let price = other.price is Some && (base.price is None || other.price_confidence
        > base.price_confidence);
    let quantity = other.quantity_scu is Some && (base.quantity_scu is None
        || other.quantity_confidence > base.quantity_confidence);
    let status = base.status is None && other.status is Some;
    CommodityView {
        name: if name {
            other.name
        } else {
            base.name
        },
        name_confidence: if name {
            other.name_confidence
        } else {
            base.name_confidence
        },
        price: if price {
            other.price
        } else {
            base.price
        },
        price_confidence: if price {
            other.price_confidence
        } else {
            base.price_confidence
        },
        quantity_scu: if quantity {
            other.quantity_scu
        } else {
            base.quantity_scu
        },
        quantity_confidence: if quantity {
            other.quantity_confidence
        } else {
            base.quantity_confidence
        },
        status: if status {
            other.status
        } else {
            base.status
        },
        stock_label: if status {
            other.stock_label
        } else {
            base.stock_label
        },
        ..base
    }
}

/// The id at position `i`, where there is a row with an id.
pub open spec fn id_at(rows: Seq<CommodityView>, i: int) -> Option<u32> {
    if 0 <= i < rows.len() {
        rows[i].id_commodity
    } else {
        None
    }
}

/// The row at position `i` is there and has no id.
pub open spec fn nameless_at(rows: Seq<CommodityView>, i: int) -> bool {
    0 <= i < rows.len() && rows[i].id_commodity is None
}

/// Interleaves the rows of `a` from `i` on and of `b` from `j` on. A row without an
/// id goes out as soon as it is at the head. Rows of one commodity at both heads are
/// merged; a row that only one list has goes out as soon as it is at the head, `b`'s
/// first; where the lists disagree on the order, the one of `a` holds.
pub open spec fn interleaved(
    a: Seq<CommodityView>,
    b: Seq<CommodityView>,
    i: int,
    j: int,
) -> Seq<CommodityView>
    decreases a.len() - i + b.len() - j,
    when 0 <= i <= a.len() && 0 <= j <= b.len()
{
    if nameless_at(a, i) {
        seq![a[i]] + interleaved(a, b, i + 1, j)
    } else if nameless_at(b, j) {
        seq![b[j]] + interleaved(a, b, i, j + 1)
    } else {
        match (id_at(a, i), id_at(b, j)) {
            (Some(x), Some(y)) => if x == y {
                seq![merged_row(a[i], b[j])] + interleaved(a, b, i + 1, j + 1)
            } else if !has_id(a, y) {
                seq![b[j]] + interleaved(a, b, i, j + 1)
            } else {
                let row = match first_with(b, x) {
                    Some(other) => merged_row(a[i], other),
                    None => a[i],
                };
                seq![row] + interleaved(a, b, i + 1, j)
            },
            (Some(_), None) => seq![a[i]] + interleaved(a, b, i + 1, j),
            (None, Some(_)) => seq![b[j]] + interleaved(a, b, i, j + 1),
            (None, None) => Seq::empty(),
        }
    }
}

/// The rows without those of a commodity that an earlier row has.
pub open spec fn deduplicated(rows: Seq<CommodityView>) -> Seq<CommodityView>
    decreases rows.len(),
{
    if rows.len() == 0 {
        rows
    } else {
        let before = deduplicated(rows.drop_last());
        match rows.last().id_commodity {
            Some(id) => if has_id(rows.drop_last(), id) {
                before
            } else {
                before.push(rows.last())
            },
            None => before.push(rows.last()),
        }
    }
}

/// Ship ammunition of a known size.
pub open spec fn is_sized_ammo(row: CommodityView) -> bool {
    match row.id_commodity {
        Some(id) => 201 <= id <= 207,
        None => false,
    }
}

/// Some row is ship ammunition of a known size.
pub open spec fn has_sized_ammo(rows: Seq<CommodityView>) -> bool {
    exists|k: int| 0 <= k < rows.len() && is_sized_ammo(#[trigger] rows[k])
}

/// The rows without those of commodity `id`.
pub open spec fn without(rows: Seq<CommodityView>, id: u32) -> Seq<CommodityView>
    decreases rows.len(),
{
    if rows.len() == 0 {
        rows
    } else if rows.last().id_commodity == Some(id) {
        without(rows.drop_last(), id)
    } else {
        without(rows.drop_last(), id).push(rows.last())
    }
}

/// The commodity "Ship Ammunition" of no particular size.
pub const GENERIC_AMMO: u32 = 128;

/// The rows of both lists: interleaved, each commodity once, and without generic
/// ship ammunition where a size is known.
pub open spec fn merged_rows(a: Seq<CommodityView>, b: Seq<CommodityView>) -> Seq<CommodityView> {
    let rows = deduplicated(interleaved(a, b, 0, 0));
    if has_sized_ammo(rows) {
        without(rows, GENERIC_AMMO)
    } else {
        rows
    }
}

/// Whether the terminal comes from the second extraction: where it names one, and
/// the first names none or is less sure.
pub open spec fn prefers_second(a: ExtractionView, b: ExtractionView) -> bool {
    b.id_terminal is Some && (a.id_terminal is None || b.terminal_confidence
        > a.terminal_confidence)
}

/// Two extractions of one screenshot as one.
pub open spec fn merged(a: ExtractionView, b: ExtractionView) -> ExtractionView {
    let terminal = if prefers_second(a, b) {
        b
    } else {
        a
    };
    ExtractionView {
        screenshot: a.screenshot,
        terminal_name: terminal.terminal_name,
        id_terminal: terminal.id_terminal,
        terminal_confidence: terminal.terminal_confidence,
        terminal_candidates: terminal.terminal_candidates,
        terminal_type: if a.terminal_type is Some {
            a.terminal_type
        } else {
            b.terminal_type
        },
        commodities: merged_rows(a.commodities, b.commodities),
        captured_at: a.captured_at,
    }
}

/// Fills a row with whatever is better in another row of the same commodity.
pub fn merge_commodity(base: &mut Commodity, other: &Commodity)
    ensures
        final(base)@ == merged_row(old(base)@, other@),
{
    if other.name_confidence > base.name_confidence {
        base.name = other.name.clone();
        base.name_confidence = other.name_confidence;
    }
    if other.price.is_some() && (base.price.is_none() || other.price_confidence
        > base.price_confidence) {
        base.price = other.price;
        base.price_confidence = other.price_confidence;
    }
    if other.quantity_scu.is_some() && (base.quantity_scu.is_none() || other.quantity_confidence
        > base.quantity_confidence) {
        base.quantity_scu = other.quantity_scu;
        base.quantity_confidence = other.quantity_confidence;
    }
    if base.status.is_none() && other.status.is_some() {
        base.status = other.status;
        base.stock_label = crate::model::copy_text(&other.stock_label);
    }
}

/// The position of the first row of a commodity.
fn find_row(rows: &Vec<Commodity>, id: u32) -> (r: Option<usize>)
    ensures
        match r {
            Some(k) => k < rows@.len() && first_with(views(rows@), id) == Some(rows@[k as int]@),
            None => first_with(views(rows@), id) is None,
        },
{
    let ghost all = views(rows@);
    let mut k: usize = 0;
    while k < rows.len()
        invariant
            k <= rows.len(),
            all == views(rows@),
            first_with(all.take(k as int), id) is None,
        decreases rows.len() - k,
    {
        proof {
            assert(all.take(k + 1).drop_last() =~= all.take(k as int));
            assert(all.take(k + 1).last() == rows@[k as int]@);
        }
        if rows[k].id_commodity == Some(id) {
            proof {
                lemma_first_with_prefix(all, id, k + 1);
            }
            return Some(k);
        }
        k += 1;
    }
    assert(all.take(k as int) =~= all);
    None
}

/// The first row of a commodity in a prefix is the first of all.
proof fn lemma_first_with_prefix(rows: Seq<CommodityView>, id: u32, n: int)
    requires
        0 <= n <= rows.len(),
        has_id(rows.take(n), id),
    ensures
        first_with(rows, id) == first_with(rows.take(n), id),
    decreases rows.len() - n,
{
    if n == rows.len() {
        assert(rows.take(n) =~= rows);
    } else {
        assert(rows.take(n + 1).drop_last() =~= rows.take(n));
        lemma_first_with_prefix(rows, id, n + 1);
    }
}

/// Interleaves the rows of two lists.
fn interleave(a: &Vec<Commodity>, b: &Vec<Commodity>) -> (rows: Vec<Commodity>)
    ensures
        views(rows@) == interleaved(views(a@), views(b@), 0, 0),
{
    let ghost av = views(a@);
    let ghost bv = views(b@);
    let mut rows: Vec<Commodity> = Vec::new();
    let mut i: usize = 0;
    let mut j: usize = 0;
    let mut open = true;
    assert(views(rows@) =~= Seq::empty());
    assert(interleaved(av, bv, 0, 0) =~= views(rows@) + interleaved(av, bv, 0, 0));
    while open
        invariant
            i <= a.len(),
            j <= b.len(),
            av == views(a@),
            bv == views(b@),
            open ==> interleaved(av, bv, 0, 0) == views(rows@) + interleaved(
                av,
                bv,
                i as int,
                j as int,
            ),
            !open ==> interleaved(av, bv, 0, 0) == views(rows@),
        decreases a.len() - i + b.len() - j, open as int,
    {
        let ghost done = views(rows@);
        let ghost rest = interleaved(av, bv, i as int, j as int);
        let a_id = if i < a.len() {
            assert(av[i as int] == a@[i as int]@);
            a[i].id_commodity
        } else {
            None
        };
        let b_id = if j < b.len() {
            assert(bv[j as int] == b@[j as int]@);
            b[j].id_commodity
        } else {
            None
        };
        let mut from_a = false;
        let mut from_b = false;
        let mut row: Option<Commodity> = None;
        if i < a.len() && a_id.is_none() {
            row = Some(a[i].clone());
            from_a = true;
        } else if j < b.len() && b_id.is_none() {
            row = Some(b[j].clone());
            from_b = true;
        } else {
            match (a_id, b_id) {
                (Some(x), Some(y)) => {
                    if x == y {
                        let mut both = a[i].clone();
                        merge_commodity(&mut both, &b[j]);
                        row = Some(both);
                        from_a = true;
                        from_b = true;
                    } else if find_row(a, y).is_none() {
                        row = Some(b[j].clone());
                        from_b = true;
                    } else {
                        let mut own = a[i].clone();
                        if let Some(k) = find_row(b, x) {
                            merge_commodity(&mut own, &b[k]);
                        }
                        row = Some(own);
                        from_a = true;
                    }
                },
                (Some(_), None) => {
                    row = Some(a[i].clone());
                    from_a = true;
                },
                (None, Some(_)) => {
                    row = Some(b[j].clone());
                    from_b = true;
                },
                (None, None) => {},
            }
        }
        match row {
            Some(row) => {
                let i2: usize = if from_a {
                    i + 1
                } else {
                    i
                };
                let j2: usize = if from_b {
                    j + 1
                } else {
                    j
                };
                proof {
                    lemma_views_push(rows@, row);
                    let tail = interleaved(av, bv, i2 as int, j2 as int);
                    assert(rest == seq![row@] + tail);
                    assert(done + (seq![row@] + tail) =~= done.push(row@) + tail);
                }
                rows.push(row);
                i = i2;
                j = j2;
            },
            None => {
                proof {
                    assert(rest =~= Seq::empty());
                    assert(done + rest =~= done);
                }
                open = false;
            },
        }
    }
    rows
}

/// Keeps the first row of each commodity.
fn deduplicate(rows: &Vec<Commodity>) -> (r: Vec<Commodity>)
    ensures
        views(r@) == deduplicated(views(rows@)),
{
    let ghost all = views(rows@);
    let mut r: Vec<Commodity> = Vec::new();
    let mut k: usize = 0;
    assert(views(r@) =~= Seq::empty());
    while k < rows.len()
        invariant
            k <= rows.len(),
            all == views(rows@),
            views(r@) == deduplicated(all.take(k as int)),
        decreases rows.len() - k,
    {
        proof {
            assert(all.take(k + 1).drop_last() =~= all.take(k as int));
            assert(all.take(k + 1).last() == rows@[k as int]@);
        }
        let repeated = match rows[k].id_commodity {
            Some(id) => {
                proof {
                    lemma_deduplicated(all.take(k as int), id);
                }
                find_row(&r, id).is_some()
            },
            None => false,
        };
        if !repeated {
            let row = rows[k].clone();
            proof {
                lemma_views_push(r@, row);
            }
            r.push(row);
        }
        k += 1;
    }
    assert(all.take(k as int) =~= all);
    r
}

/// What is dropped was there before.
proof fn lemma_deduplicated(rows: Seq<CommodityView>, id: u32)
    ensures
        first_with(deduplicated(rows), id) == first_with(rows, id),
    decreases rows.len(),
{
    if rows.len() > 0 {
        let shorter = rows.drop_last();
        lemma_deduplicated(shorter, id);
        let before = deduplicated(shorter);
        assert(before.push(rows.last()).drop_last() =~= before);
    }
}

/// Drops the rows of a commodity.
fn drop_id(rows: &Vec<Commodity>, id: u32) -> (r: Vec<Commodity>)
    ensures
        views(r@) == without(views(rows@), id),
{
    let ghost all = views(rows@);
    let mut r: Vec<Commodity> = Vec::new();
    let mut k: usize = 0;
    assert(views(r@) =~= Seq::empty());
    while k < rows.len()
        invariant
            k <= rows.len(),
            all == views(rows@),
            views(r@) == without(all.take(k as int), id),
        decreases rows.len() - k,
    {
        proof {
            assert(all.take(k + 1).drop_last() =~= all.take(k as int));
            assert(all.take(k + 1).last() == rows@[k as int]@);
        }
        if !(rows[k].id_commodity == Some(id)) {
            let row = rows[k].clone();
            proof {
                lemma_views_push(r@, row);
            }
            r.push(row);
        }
        k += 1;
    }
    assert(all.take(k as int) =~= all);
    r
}

fn any_sized_ammo(rows: &Vec<Commodity>) -> (r: bool)
    ensures
        r == has_sized_ammo(views(rows@)),
{
    let mut k: usize = 0;
    while k < rows.len()
        invariant
            k <= rows.len(),
            forall|l: int| 0 <= l < k ==> !is_sized_ammo(#[trigger] views(rows@)[l]),
        decreases rows.len() - k,
    {
        if let Some(id) = rows[k].id_commodity {
            if 201 <= id && id <= 207 {
                assert(is_sized_ammo(views(rows@)[k as int]));
                return true;
            }
        }
        assert(!is_sized_ammo(views(rows@)[k as int]));
        k += 1;
    }
    false
}

/// Merges two extractions of one screenshot, such as those of a rectified and of a
/// raw pass. The terminal is the one that was identified with the higher
/// confidence; the rows are united by commodity.
pub fn merge(a: Extraction, b: Extraction) -> (r: Extraction)
    ensures
        r@ == merged(a@, b@),
{
    let mut r = a;
    let rows = deduplicate(&interleave(&r.commodities, &b.commodities));
    let rows = if any_sized_ammo(&rows) {
        drop_id(&rows, GENERIC_AMMO)
    } else {
        rows
    };
    if b.id_terminal.is_some() && (r.id_terminal.is_none() || b.terminal_confidence
        > r.terminal_confidence) {
        r.terminal_name = b.terminal_name;
        r.id_terminal = b.id_terminal;
        r.terminal_confidence = b.terminal_confidence;
        r.terminal_candidates = b.terminal_candidates;
    }
    if r.terminal_type.is_none() {
        r.terminal_type = b.terminal_type;
    }
    r.commodities = rows;
    r
}

/// No commodity has two rows.
pub open spec fn distinct_ids(rows: Seq<CommodityView>) -> bool {
    forall|k: int, l: int|
        0 <= k < l < rows.len() && (#[trigger] rows[k]).id_commodity is Some ==> rows[k].id_commodity
            != (#[trigger] rows[l]).id_commodity
}

/// The row of a commodity in the union of two lists: the rows of both merged, or
/// the row of the list that has one.
pub open spec fn united(
    a: Seq<CommodityView>,
    b: Seq<CommodityView>,
    id: u32,
) -> Option<CommodityView> {
    match (first_with(a, id), first_with(b, id)) {
        (Some(row), Some(other)) => Some(merged_row(row, other)),
        (Some(row), None) => Some(row),
        (None, other) => other,
    }
}

/// `x` comes before `y`: up to some place there is an `x` and no `y`.
pub open spec fn comes_before(rows: Seq<CommodityView>, x: u32, y: u32) -> bool {
    has_id(rows, y) && exists|n: int|
        0 <= n <= rows.len() && has_id(#[trigger] rows.take(n), x) && !has_id(rows.take(n), y)
}

/// Where `rows` has two commodities of `list`, it has them in the order of `list`.
pub open spec fn keeps_order(rows: Seq<CommodityView>, list: Seq<CommodityView>) -> bool {
    forall|x: u32, y: u32|
        #[trigger] comes_before(list, x, y) && has_id(rows, x) && has_id(rows, y)
            ==> comes_before(rows, x, y)
}

proof fn lemma_first_with_none(rows: Seq<CommodityView>, id: u32)
    ensures
        first_with(rows, id) is None <==> forall|k: int|
            0 <= k < rows.len() ==> (#[trigger] rows[k]).id_commodity != Some(id),
        first_with(rows, id) is Some ==> (first_with(rows, id)->0).id_commodity == Some(id),
    decreases rows.len(),
{
    if rows.len() > 0 {
        lemma_first_with_none(rows.drop_last(), id);
        assert(forall|k: int|
            0 <= k < rows.len() - 1 ==> #[trigger] rows[k] == rows.drop_last()[k]);
        if first_with(rows, id) is Some {
            if rows.last().id_commodity != Some(id) {
                let k = choose|k: int|
                    0 <= k < rows.len() - 1 && (#[trigger] rows.drop_last()[k]).id_commodity
                        == Some(id);
                assert(rows[k].id_commodity == Some(id));
            } else {
                assert(rows[rows.len() - 1].id_commodity == Some(id));
            }
        } else {
            assert(rows[rows.len() - 1] == rows.last());
        }
    }
}

/// The first row of a commodity, with one row more in front.
proof fn lemma_first_with_cons(row: CommodityView, rows: Seq<CommodityView>, id: u32)
    ensures
        first_with(seq![row] + rows, id) == if row.id_commodity == Some(id) {
            Some(row)
        } else {
            first_with(rows, id)
        },
    decreases rows.len(),
{
    let all = seq![row] + rows;
    if rows.len() == 0 {
        assert(all.drop_last() =~= Seq::empty());
        assert(first_with(all.drop_last(), id) is None);
        assert(first_with(rows, id) is None);
        assert(all.last() == row);
    } else {
        lemma_first_with_cons(row, rows.drop_last(), id);
        assert(all.drop_last() =~= seq![row] + rows.drop_last());
        assert(all.last() == rows.last());
    }
}

/// The next row either is the first of its commodity or leaves it open.
proof fn lemma_first_with_next(rows: Seq<CommodityView>, i: int, id: u32)
    requires
        0 <= i < rows.len(),
        !has_id(rows.take(i), id),
    ensures
        rows[i].id_commodity == Some(id) ==> first_with(rows, id) == Some(rows[i]),
        rows[i].id_commodity != Some(id) ==> !has_id(rows.take(i + 1), id),
{
    assert(rows.take(i + 1).drop_last() =~= rows.take(i));
    assert(rows.take(i + 1).last() == rows[i]);
    if rows[i].id_commodity == Some(id) {
        lemma_first_with_prefix(rows, id, i + 1);
    }
}

/// Of a commodity that has not come out yet, what comes out first is the union.
proof fn lemma_interleaved_unites(
    a: Seq<CommodityView>,
    b: Seq<CommodityView>,
    i: int,
    j: int,
    id: u32,
)
    requires
        0 <= i <= a.len(),
        0 <= j <= b.len(),
        !has_id(a.take(i), id),
        !has_id(b.take(j), id),
    ensures
        first_with(interleaved(a, b, i, j), id) == united(a, b, id),
    decreases a.len() - i + b.len() - j,
{
    let rest = interleaved(a, b, i, j);
    if i < a.len() {
        lemma_first_with_next(a, i, id);
    } else {
        assert(a.take(i) =~= a);
    }
    if j < b.len() {
        lemma_first_with_next(b, j, id);
    } else {
        assert(b.take(j) =~= b);
    }
    if nameless_at(a, i) {
        lemma_first_with_cons(a[i], interleaved(a, b, i + 1, j), id);
        lemma_interleaved_unites(a, b, i + 1, j, id);
    } else if nameless_at(b, j) {
        lemma_first_with_cons(b[j], interleaved(a, b, i, j + 1), id);
        lemma_interleaved_unites(a, b, i, j + 1, id);
    } else {
        match (id_at(a, i), id_at(b, j)) {
            (Some(x), Some(y)) => {
                if x == y {
                    lemma_first_with_cons(
                        merged_row(a[i], b[j]),
                        interleaved(a, b, i + 1, j + 1),
                        id,
                    );
                    if x != id {
                        lemma_interleaved_unites(a, b, i + 1, j + 1, id);
                    }
                } else if !has_id(a, y) {
                    lemma_first_with_cons(b[j], interleaved(a, b, i, j + 1), id);
                    if y != id {
                        lemma_interleaved_unites(a, b, i, j + 1, id);
                    }
                } else {
                    let row = match first_with(b, x) {
                        Some(other) => merged_row(a[i], other),
                        None => a[i],
                    };
                    lemma_first_with_cons(row, interleaved(a, b, i + 1, j), id);
                    if x != id {
                        lemma_interleaved_unites(a, b, i + 1, j, id);
                    }
                }
            },
            (Some(x), None) => {
                lemma_first_with_cons(a[i], interleaved(a, b, i + 1, j), id);
                if x != id {
                    lemma_interleaved_unites(a, b, i + 1, j, id);
                }
            },
            (None, Some(y)) => {
                lemma_first_with_cons(b[j], interleaved(a, b, i, j + 1), id);
                if y != id {
                    lemma_interleaved_unites(a, b, i, j + 1, id);
                }
            },
            (None, None) => {},
        }
    }
}

proof fn lemma_without(rows: Seq<CommodityView>, dropped: u32, id: u32)
    ensures
        first_with(without(rows, dropped), id) == if id == dropped {
            None
        } else {
            first_with(rows, id)
        },
    decreases rows.len(),
{
    if rows.len() > 0 {
        lemma_without(rows.drop_last(), dropped, id);
        let before = without(rows.drop_last(), dropped);
        assert(before.push(rows.last()).drop_last() =~= before);
    }
}

proof fn lemma_distinct_push(rows: Seq<CommodityView>, row: CommodityView)
    requires
        distinct_ids(rows),
        match row.id_commodity {
            Some(id) => !has_id(rows, id),
            None => true,
        },
    ensures
        distinct_ids(rows.push(row)),
{
    if let Some(id) = row.id_commodity {
        lemma_first_with_none(rows, id);
    }
}

proof fn lemma_deduplicated_distinct(rows: Seq<CommodityView>)
    ensures
        distinct_ids(deduplicated(rows)),
    decreases rows.len(),
{
    if rows.len() > 0 {
        let shorter = rows.drop_last();
        lemma_deduplicated_distinct(shorter);
        if let Some(id) = rows.last().id_commodity {
            lemma_deduplicated(shorter, id);
            if !has_id(shorter, id) {
                lemma_distinct_push(deduplicated(shorter), rows.last());
            }
        } else {
            lemma_distinct_push(deduplicated(shorter), rows.last());
        }
    }
}

proof fn lemma_without_distinct(rows: Seq<CommodityView>, dropped: u32)
    requires
        distinct_ids(rows),
    ensures
        distinct_ids(without(rows, dropped)),
    decreases rows.len(),
{
    if rows.len() > 0 {
        let shorter = rows.drop_last();
        assert(distinct_ids(shorter)) by {
            assert forall|k: int, l: int|
                0 <= k < l < shorter.len() && (
                #[trigger] shorter[k]).id_commodity is Some implies shorter[k].id_commodity != (
            #[trigger] shorter[l]).id_commodity by {
                assert(rows[k] == shorter[k] && rows[l] == shorter[l]);
            }
        }
        lemma_without_distinct(shorter, dropped);
        if let Some(id) = rows.last().id_commodity {
            if id != dropped {
                lemma_without(shorter, dropped, id);
                lemma_first_with_none(shorter, id);
                assert forall|k: int| 0 <= k < shorter.len() implies (
                #[trigger] shorter[k]).id_commodity != Some(id) by {
                    assert(rows[k] == shorter[k]);
                    assert(rows[rows.len() - 1] == rows.last());
                }
                lemma_distinct_push(without(shorter, dropped), rows.last());
            }
        } else {
            lemma_distinct_push(without(shorter, dropped), rows.last());
        }
    }
}

/// A merged extraction has no commodity twice.
pub proof fn law_merge_has_no_duplicates(a: ExtractionView, b: ExtractionView)
    ensures
        distinct_ids(merged(a, b).commodities),
{
    let rows = interleaved(a.commodities, b.commodities, 0, 0);
    lemma_deduplicated_distinct(rows);
    lemma_without_distinct(deduplicated(rows), GENERIC_AMMO);
}

proof fn lemma_sized_ammo(rows: Seq<CommodityView>)
    ensures
        has_sized_ammo(rows) <==> exists|id: u32| 201 <= id <= 207 && #[trigger] has_id(rows, id),
{
    if has_sized_ammo(rows) {
        let k = choose|k: int| 0 <= k < rows.len() && is_sized_ammo(#[trigger] rows[k]);
        let id = rows[k].id_commodity->0;
        lemma_first_with_none(rows, id);
        assert(has_id(rows, id));
    }
    if exists|id: u32| 201 <= id <= 207 && #[trigger] has_id(rows, id) {
        let id = choose|id: u32| 201 <= id <= 207 && #[trigger] has_id(rows, id);
        lemma_first_with_none(rows, id);
        let k = choose|k: int|
            0 <= k < rows.len() && (#[trigger] rows[k]).id_commodity == Some(id);
        assert(is_sized_ammo(rows[k]));
    }
}

proof fn lemma_deduplicated_unites(a: Seq<CommodityView>, b: Seq<CommodityView>, id: u32)
    ensures
        first_with(deduplicated(interleaved(a, b, 0, 0)), id) == united(a, b, id),
{
    assert(a.take(0) =~= Seq::empty());
    assert(b.take(0) =~= Seq::empty());
    lemma_interleaved_unites(a, b, 0, 0, id);
    lemma_deduplicated(interleaved(a, b, 0, 0), id);
}

/// The rows of a merged extraction are the union of the rows of both: a commodity
/// that both have gets, field by field, what is better; one that only one has
/// keeps its row. The one exception is generic ship ammunition, which goes where
/// either has a sized one.
pub proof fn law_merge_unites(a: ExtractionView, b: ExtractionView, id: u32)
    ensures
        first_with(merged(a, b).commodities, id) == if id == GENERIC_AMMO && (has_sized_ammo(
            a.commodities,
        ) || has_sized_ammo(b.commodities)) {
            None
        } else {
            united(a.commodities, b.commodities, id)
        },
{
    let rows = deduplicated(interleaved(a.commodities, b.commodities, 0, 0));
    lemma_deduplicated_unites(a.commodities, b.commodities, id);
    lemma_without(rows, GENERIC_AMMO, id);
    lemma_merged_sized_ammo(a.commodities, b.commodities);
}

/// There is sized ammunition among the rows where either list has some.
proof fn lemma_merged_sized_ammo(a: Seq<CommodityView>, b: Seq<CommodityView>)
    ensures
        has_sized_ammo(deduplicated(interleaved(a, b, 0, 0))) <==> has_sized_ammo(a)
            || has_sized_ammo(b),
{
    let rows = deduplicated(interleaved(a, b, 0, 0));
    lemma_sized_ammo(rows);
    lemma_sized_ammo(a);
    lemma_sized_ammo(b);
    assert forall|x: u32| #[trigger] has_id(rows, x) <==> has_id(a, x) || has_id(b, x) by {
        lemma_deduplicated_unites(a, b, x);
    }
    if has_sized_ammo(rows) {
        let x = choose|x: u32| 201 <= x <= 207 && #[trigger] has_id(rows, x);
        assert(has_id(a, x) || has_id(b, x));
    }
    if has_sized_ammo(a) {
        let x = choose|x: u32| 201 <= x <= 207 && #[trigger] has_id(a, x);
        assert(has_id(rows, x));
    }
    if has_sized_ammo(b) {
        let x = choose|x: u32| 201 <= x <= 207 && #[trigger] has_id(b, x);
        assert(has_id(rows, x));
    }
}

/// An order is kept when a row of another commodity goes in front.
proof fn lemma_before_cons(row: CommodityView, rows: Seq<CommodityView>, x: u32, y: u32)
    requires
        row.id_commodity != Some(y),
        row.id_commodity == Some(x) && has_id(rows, y) || comes_before(rows, x, y),
    ensures
        comes_before(seq![row] + rows, x, y),
{
    let all = seq![row] + rows;
    lemma_first_with_cons(row, rows, y);
    if row.id_commodity == Some(x) {
        assert(all.take(1) =~= seq![row] + rows.take(0));
        lemma_first_with_cons(row, rows.take(0), x);
        lemma_first_with_cons(row, rows.take(0), y);
        assert(first_with(rows.take(0), y) is None);
        assert(has_id(all.take(1), x) && !has_id(all.take(1), y));
    } else {
        let n = choose|n: int|
            0 <= n <= rows.len() && has_id(#[trigger] rows.take(n), x) && !has_id(rows.take(n), y);
        assert(all.take(n + 1) =~= seq![row] + rows.take(n));
        lemma_first_with_cons(row, rows.take(n), x);
        lemma_first_with_cons(row, rows.take(n), y);
        assert(has_id(all.take(n + 1), x) && !has_id(all.take(n + 1), y));
    }
}

/// What is in no prefix up to a place but comes before something cannot be
/// preceded there.
proof fn lemma_not_yet(rows: Seq<CommodityView>, i: int, x: u32, y: u32)
    requires
        0 <= i < rows.len(),
        comes_before(rows, x, y),
        !has_id(rows.take(i), x),
        x != y,
    ensures
        rows[i].id_commodity != Some(y),
{
    let n = choose|n: int|
        0 <= n <= rows.len() && has_id(#[trigger] rows.take(n), x) && !has_id(rows.take(n), y);
    if n <= i {
        assert(rows.take(i).take(n) =~= rows.take(n));
        lemma_first_with_prefix(rows.take(i), x, n);
    } else {
        lemma_first_with_none(rows.take(n), y);
        assert(rows.take(n)[i] == rows[i]);
    }
}

/// What comes before something is there.
proof fn lemma_before_is_there(rows: Seq<CommodityView>, x: u32, y: u32)
    requires
        comes_before(rows, x, y),
    ensures
        has_id(rows, x),
{
    let n = choose|n: int|
        0 <= n <= rows.len() && has_id(#[trigger] rows.take(n), x) && !has_id(rows.take(n), y);
    lemma_first_with_prefix(rows, x, n);
}

/// What is in the list but not before a place is at that place or behind it.
proof fn lemma_still_to_come(rows: Seq<CommodityView>, i: int, x: u32)
    requires
        0 <= i <= rows.len(),
        has_id(rows, x),
        !has_id(rows.take(i), x),
    ensures
        i < rows.len(),
{
    if i == rows.len() {
        assert(rows.take(i) =~= rows);
    }
}

/// The order of the first list is kept.
proof fn lemma_first_order(
    a: Seq<CommodityView>,
    b: Seq<CommodityView>,
    i: int,
    j: int,
    x: u32,
    y: u32,
)
    requires
        0 <= i <= a.len(),
        0 <= j <= b.len(),
        x != y,
        comes_before(a, x, y),
        !has_id(a.take(i), x),
        !has_id(a.take(i), y),
        !has_id(b.take(j), x),
        !has_id(b.take(j), y),
    ensures
        comes_before(interleaved(a, b, i, j), x, y),
    decreases a.len() - i + b.len() - j,
{
    lemma_before_is_there(a, x, y);
    lemma_still_to_come(a, i, y);
    lemma_not_yet(a, i, x, y);
    lemma_first_with_next(a, i, x);
    lemma_first_with_next(a, i, y);
    if j < b.len() {
        lemma_first_with_next(b, j, x);
        lemma_first_with_next(b, j, y);
    }
    if nameless_at(a, i) {
        lemma_first_order(a, b, i + 1, j, x, y);
        lemma_before_cons(a[i], interleaved(a, b, i + 1, j), x, y);
    } else if nameless_at(b, j) {
        lemma_first_order(a, b, i, j + 1, x, y);
        lemma_before_cons(b[j], interleaved(a, b, i, j + 1), x, y);
    } else {
        match (id_at(a, i), id_at(b, j)) {
            (Some(p), Some(q)) => {
                if p == q {
                    lemma_comes_later(a, b, i, j, true, true, y);
                    if p != x {
                        lemma_first_order(a, b, i + 1, j + 1, x, y);
                    }
                    lemma_before_cons(
                        merged_row(a[i], b[j]),
                        interleaved(a, b, i + 1, j + 1),
                        x,
                        y,
                    );
                } else if !has_id(a, q) {
                    lemma_first_order(a, b, i, j + 1, x, y);
                    lemma_before_cons(b[j], interleaved(a, b, i, j + 1), x, y);
                } else {
                    let row = match first_with(b, p) {
                        Some(other) => merged_row(a[i], other),
                        None => a[i],
                    };
                    lemma_comes_later(a, b, i, j, true, false, y);
                    if p != x {
                        lemma_first_order(a, b, i + 1, j, x, y);
                    }
                    lemma_before_cons(row, interleaved(a, b, i + 1, j), x, y);
                }
            },
            (Some(p), None) => {
                lemma_comes_later(a, b, i, j, true, false, y);
                if p != x {
                    lemma_first_order(a, b, i + 1, j, x, y);
                }
                lemma_before_cons(a[i], interleaved(a, b, i + 1, j), x, y);
            },
            _ => {},
        }
    }
}

/// What has not come out yet and is still in a list comes out later.
proof fn lemma_comes_later(
    a: Seq<CommodityView>,
    b: Seq<CommodityView>,
    i: int,
    j: int,
    from_a: bool,
    from_b: bool,
    y: u32,
)
    requires
        0 <= i <= a.len(),
        0 <= j <= b.len(),
        from_a ==> i < a.len(),
        from_b ==> j < b.len(),
        has_id(a, y) || has_id(b, y),
        !has_id(a.take(i), y),
        !has_id(b.take(j), y),
        from_a ==> a[i].id_commodity != Some(y),
        from_b ==> b[j].id_commodity != Some(y),
    ensures
        has_id(
            interleaved(
                a,
                b,
                if from_a {
                    i + 1
                } else {
                    i
                },
                if from_b {
                    j + 1
                } else {
                    j
                },
            ),
            y,
        ),
{
    let i2 = if from_a {
        lemma_first_with_next(a, i, y);
        i + 1
    } else {
        i
    };
    let j2 = if from_b {
        lemma_first_with_next(b, j, y);
        j + 1
    } else {
        j
    };
    lemma_interleaved_unites(a, b, i2, j2, y);
}

/// The lists have the commodities that they share in one order.
pub open spec fn agree(a: Seq<CommodityView>, b: Seq<CommodityView>) -> bool {
    forall|x: u32, y: u32|
        #[trigger] comes_before(a, x, y) && has_id(b, x) && has_id(b, y) ==> comes_before(b, x, y)
}

/// Two rows are not of one commodity.
spec fn differ(p: CommodityView, q: CommodityView) -> bool {
    p.id_commodity is None || p.id_commodity != q.id_commodity
}

/// What the interleaving of lists that agree keeps: nothing of `b` that is still to
/// come has come out of `a`, and what has come out of `b` and is in `a` has come
/// out of `a` too.
spec fn in_step(a: Seq<CommodityView>, b: Seq<CommodityView>, i: int, j: int) -> bool {
    &&& forall|k: int, l: int|
        0 <= k < i && j <= l < b.len() ==> differ(#[trigger] a[k], #[trigger] b[l])
    &&& forall|k: int, l: int|
        i <= k < a.len() && 0 <= l < j ==> differ(#[trigger] a[k], #[trigger] b[l])
}

/// `x` at a place and `y` not up to there.
proof fn lemma_before_at(rows: Seq<CommodityView>, i: int, x: u32, y: u32)
    requires
        0 <= i < rows.len(),
        rows[i].id_commodity == Some(x),
        x != y,
        has_id(rows, y),
        forall|k: int| 0 <= k < i ==> (#[trigger] rows[k]).id_commodity != Some(y),
    ensures
        comes_before(rows, x, y),
{
    let prefix = rows.take(i + 1);
    lemma_first_with_none(prefix, x);
    lemma_first_with_none(prefix, y);
    assert(prefix[i] == rows[i]);
    assert(has_id(prefix, x)) by {
        if first_with(prefix, x) is None {
            assert(prefix[i].id_commodity != Some(x));
        }
    }
    assert(!has_id(prefix, y)) by {
        assert forall|k: int| 0 <= k < prefix.len() implies (
        #[trigger] prefix[k]).id_commodity != Some(y) by {
            assert(prefix[k] == rows[k]);
        }
    }
}

/// Two commodities cannot each come before the other.
proof fn lemma_before_antisymmetric(rows: Seq<CommodityView>, x: u32, y: u32)
    requires
        comes_before(rows, x, y),
    ensures
        !comes_before(rows, y, x),
{
    if comes_before(rows, y, x) {
        let n = choose|n: int|
            0 <= n <= rows.len() && has_id(#[trigger] rows.take(n), x) && !has_id(rows.take(n), y);
        let m = choose|m: int|
            0 <= m <= rows.len() && has_id(#[trigger] rows.take(m), y) && !has_id(rows.take(m), x);
        if n <= m {
            assert(rows.take(m).take(n) =~= rows.take(n));
            lemma_first_with_prefix(rows.take(m), x, n);
        } else {
            assert(rows.take(n).take(m) =~= rows.take(m));
            lemma_first_with_prefix(rows.take(n), y, m);
        }
    }
}

/// Lists that agree are never out of step: two different commodities at the heads
/// are not both shared.
proof fn lemma_heads(a: Seq<CommodityView>, b: Seq<CommodityView>, i: int, j: int)
    requires
        distinct_ids(a),
        distinct_ids(b),
        agree(a, b),
        0 <= i < a.len(),
        0 <= j < b.len(),
        in_step(a, b, i, j),
        a[i].id_commodity is Some,
        b[j].id_commodity is Some,
        a[i].id_commodity != b[j].id_commodity,
    ensures
        !(has_id(b, a[i].id_commodity->0) && has_id(a, b[j].id_commodity->0)),
{
    let z = a[i].id_commodity->0;
    let w = b[j].id_commodity->0;
    if has_id(b, z) && has_id(a, w) {
        assert forall|k: int| 0 <= k < i implies (#[trigger] a[k]).id_commodity != Some(w) by {
            assert(differ(a[k], b[j]));
        }
        lemma_before_at(a, i, z, w);
        lemma_first_with_none(b, z);
        assert forall|k: int| 0 <= k < j implies (#[trigger] b[k]).id_commodity != Some(z) by {
            assert(differ(a[i], b[k]));
        }
        lemma_first_with_none(b, w);
        assert(has_id(b, w)) by {
            if first_with(b, w) is None {
                assert(b[j].id_commodity != Some(w));
            }
        }
        lemma_before_at(b, j, w, z);
        assert(comes_before(b, z, w));
        lemma_before_antisymmetric(b, w, z);
    }
}

/// A row that only `a` has is at no place of `b`.
proof fn lemma_only_here(rows: Seq<CommodityView>, id: u32, l: int)
    requires
        !has_id(rows, id),
        0 <= l < rows.len(),
    ensures
        rows[l].id_commodity != Some(id),
{
    lemma_first_with_none(rows, id);
}

/// The order of the second list is kept where the lists agree.
proof fn lemma_second_order(
    a: Seq<CommodityView>,
    b: Seq<CommodityView>,
    i: int,
    j: int,
    x: u32,
    y: u32,
)
    requires
        distinct_ids(a),
        distinct_ids(b),
        agree(a, b),
        in_step(a, b, i, j),
        0 <= i <= a.len(),
        0 <= j <= b.len(),
        x != y,
        comes_before(b, x, y),
        !has_id(a.take(i), x),
        !has_id(a.take(i), y),
        !has_id(b.take(j), x),
        !has_id(b.take(j), y),
    ensures
        comes_before(interleaved(a, b, i, j), x, y),
    decreases a.len() - i + b.len() - j,
{
    lemma_before_is_there(b, x, y);
    lemma_still_to_come(b, j, y);
    lemma_not_yet(b, j, x, y);
    lemma_first_with_next(b, j, x);
    lemma_first_with_next(b, j, y);
    let q = b[j].id_commodity->0;
    if nameless_at(a, i) {
        lemma_first_with_next(a, i, x);
        lemma_first_with_next(a, i, y);
        lemma_second_order(a, b, i + 1, j, x, y);
        lemma_before_cons(a[i], interleaved(a, b, i + 1, j), x, y);
    } else if nameless_at(b, j) {
        lemma_second_order(a, b, i, j + 1, x, y);
        lemma_before_cons(b[j], interleaved(a, b, i, j + 1), x, y);
    } else if i < a.len() {
        lemma_first_with_next(a, i, x);
        lemma_first_with_next(a, i, y);
        let p = a[i].id_commodity->0;
        if p == q {
            assert(in_step(a, b, i + 1, j + 1)) by {
                assert forall|k: int, l: int| 0 <= k < i + 1 && j + 1 <= l < b.len() implies differ(
                    #[trigger] a[k],
                    #[trigger] b[l],
                ) by {
                    assert(b[j].id_commodity != b[l].id_commodity);
                }
                assert forall|k: int, l: int| i + 1 <= k < a.len() && 0 <= l < j + 1 implies differ(
                    #[trigger] a[k],
                    #[trigger] b[l],
                ) by {
                    assert(a[i].id_commodity != a[k].id_commodity);
                }
            }
            lemma_comes_later(a, b, i, j, true, true, y);
            if p != x {
                lemma_second_order(a, b, i + 1, j + 1, x, y);
            }
            lemma_before_cons(merged_row(a[i], b[j]), interleaved(a, b, i + 1, j + 1), x, y);
        } else if !has_id(a, q) {
            assert(in_step(a, b, i, j + 1)) by {
                assert forall|k: int, l: int| i <= k < a.len() && 0 <= l < j + 1 implies differ(
                    #[trigger] a[k],
                    #[trigger] b[l],
                ) by {
                    lemma_only_here(a, q, k);
                }
            }
            lemma_comes_later(a, b, i, j, false, true, y);
            if q != x {
                lemma_second_order(a, b, i, j + 1, x, y);
            }
            lemma_before_cons(b[j], interleaved(a, b, i, j + 1), x, y);
        } else {
            lemma_heads(a, b, i, j);
            assert(!has_id(b, p));
            assert(in_step(a, b, i + 1, j)) by {
                assert forall|k: int, l: int| 0 <= k < i + 1 && j <= l < b.len() implies differ(
                    #[trigger] a[k],
                    #[trigger] b[l],
                ) by {
                    lemma_only_here(b, p, l);
                }
            }
            lemma_second_order(a, b, i + 1, j, x, y);
            lemma_before_cons(a[i], interleaved(a, b, i + 1, j), x, y);
        }
    } else {
        assert(in_step(a, b, i, j + 1));
        lemma_comes_later(a, b, i, j, false, true, y);
        if q != x {
            lemma_second_order(a, b, i, j + 1, x, y);
        }
        lemma_before_cons(b[j], interleaved(a, b, i, j + 1), x, y);
    }
}

/// Dropping repetitions keeps prefixes.
proof fn lemma_deduplicated_prefix(rows: Seq<CommodityView>, n: int)
    requires
        0 <= n <= rows.len(),
    ensures
        deduplicated(rows.take(n)).len() <= deduplicated(rows).len(),
        deduplicated(rows.take(n)) == deduplicated(rows).take(
            deduplicated(rows.take(n)).len() as int,
        ),
    decreases rows.len() - n,
{
    if n == rows.len() {
        assert(rows.take(n) =~= rows);
        assert(deduplicated(rows).take(deduplicated(rows).len() as int) =~= deduplicated(rows));
    } else {
        lemma_deduplicated_prefix(rows, n + 1);
        assert(rows.take(n + 1).drop_last() =~= rows.take(n));
        let shorter = deduplicated(rows.take(n));
        let longer = deduplicated(rows.take(n + 1));
        assert(longer.take(shorter.len() as int) =~= shorter);
        assert(deduplicated(rows).take(longer.len() as int).take(shorter.len() as int)
            =~= deduplicated(rows).take(shorter.len() as int));
    }
}

proof fn lemma_deduplicated_order(rows: Seq<CommodityView>, x: u32, y: u32)
    requires
        comes_before(rows, x, y),
    ensures
        comes_before(deduplicated(rows), x, y),
{
    let n = choose|n: int|
        0 <= n <= rows.len() && has_id(#[trigger] rows.take(n), x) && !has_id(rows.take(n), y);
    lemma_deduplicated(rows, y);
    lemma_deduplicated(rows.take(n), x);
    lemma_deduplicated(rows.take(n), y);
    lemma_deduplicated_prefix(rows, n);
    let m = deduplicated(rows.take(n)).len() as int;
    assert(has_id(deduplicated(rows).take(m), x) && !has_id(deduplicated(rows).take(m), y));
}

/// Dropping a commodity keeps prefixes.
proof fn lemma_without_prefix(rows: Seq<CommodityView>, id: u32, n: int)
    requires
        0 <= n <= rows.len(),
    ensures
        without(rows.take(n), id).len() <= without(rows, id).len(),
        without(rows.take(n), id) == without(rows, id).take(
            without(rows.take(n), id).len() as int,
        ),
    decreases rows.len() - n,
{
    if n == rows.len() {
        assert(rows.take(n) =~= rows);
        assert(without(rows, id).take(without(rows, id).len() as int) =~= without(rows, id));
    } else {
        lemma_without_prefix(rows, id, n + 1);
        assert(rows.take(n + 1).drop_last() =~= rows.take(n));
        let shorter = without(rows.take(n), id);
        let longer = without(rows.take(n + 1), id);
        assert(longer.take(shorter.len() as int) =~= shorter);
        assert(without(rows, id).take(longer.len() as int).take(shorter.len() as int) =~= without(
            rows,
            id,
        ).take(shorter.len() as int));
    }
}

proof fn lemma_without_order(rows: Seq<CommodityView>, id: u32, x: u32, y: u32)
    requires
        comes_before(rows, x, y),
        x != id,
        y != id,
    ensures
        comes_before(without(rows, id), x, y),
{
    let n = choose|n: int|
        0 <= n <= rows.len() && has_id(#[trigger] rows.take(n), x) && !has_id(rows.take(n), y);
    lemma_without(rows, id, y);
    lemma_without(rows.take(n), id, x);
    lemma_without(rows.take(n), id, y);
    lemma_without_prefix(rows, id, n);
    let m = without(rows.take(n), id).len() as int;
    assert(has_id(without(rows, id).take(m), x) && !has_id(without(rows, id).take(m), y));
}

proof fn lemma_merged_order(a: Seq<CommodityView>, b: Seq<CommodityView>, x: u32, y: u32)
    requires
        comes_before(interleaved(a, b, 0, 0), x, y),
        has_id(merged_rows(a, b), x),
        has_id(merged_rows(a, b), y),
    ensures
        comes_before(merged_rows(a, b), x, y),
{
    let rows = deduplicated(interleaved(a, b, 0, 0));
    lemma_deduplicated_order(interleaved(a, b, 0, 0), x, y);
    if has_sized_ammo(rows) {
        lemma_without(rows, GENERIC_AMMO, x);
        lemma_without(rows, GENERIC_AMMO, y);
        lemma_without_order(rows, GENERIC_AMMO, x, y);
    }
}

/// A row of a commodity that the list lacks.
pub open spec fn is_foreign(row: CommodityView, list: Seq<CommodityView>) -> bool {
    match row.id_commodity {
        Some(id) => !has_id(list, id),
        None => false,
    }
}

/// The rows of commodities that the list lacks.
pub open spec fn foreign(rows: Seq<CommodityView>, list: Seq<CommodityView>) -> Seq<CommodityView>
    decreases rows.len(),
{
    if rows.len() == 0 {
        rows
    } else if is_foreign(rows.last(), list) {
        foreign(rows.drop_last(), list).push(rows.last())
    } else {
        foreign(rows.drop_last(), list)
    }
}

/// One row more in front.
proof fn lemma_foreign_cons(
    row: CommodityView,
    rows: Seq<CommodityView>,
    list: Seq<CommodityView>,
)
    ensures
        foreign(seq![row] + rows, list) == if is_foreign(row, list) {
            seq![row] + foreign(rows, list)
        } else {
            foreign(rows, list)
        },
    decreases rows.len(),
{
    let all = seq![row] + rows;
    if rows.len() == 0 {
        assert(all.drop_last() =~= Seq::empty());
        assert(all.last() == row);
        assert(foreign(all.drop_last(), list) =~= Seq::empty());
        assert(foreign(all, list) =~= if is_foreign(row, list) {
            seq![row] + foreign(rows, list)
        } else {
            foreign(rows, list)
        });
    } else {
        lemma_foreign_cons(row, rows.drop_last(), list);
        assert(all.drop_last() =~= seq![row] + rows.drop_last());
        assert(all.last() == rows.last());
        assert(foreign(all, list) =~= if is_foreign(row, list) {
            seq![row] + foreign(rows, list)
        } else {
            foreign(rows, list)
        });
    }
}

/// The next row of the second list either comes out or is in the first.
proof fn lemma_foreign_next(b: Seq<CommodityView>, j: int, list: Seq<CommodityView>)
    requires
        0 <= j < b.len(),
    ensures
        foreign(b.skip(j), list) == if is_foreign(b[j], list) {
            seq![b[j]] + foreign(b.skip(j + 1), list)
        } else {
            foreign(b.skip(j + 1), list)
        },
{
    assert(b.skip(j) =~= seq![b[j]] + b.skip(j + 1));
    lemma_foreign_cons(b[j], b.skip(j + 1), list);
}

/// A row is not of a commodity that its own list lacks.
proof fn lemma_not_foreign(a: Seq<CommodityView>, i: int)
    requires
        0 <= i < a.len(),
    ensures
        !is_foreign(a[i], a),
{
    if a[i].id_commodity is Some {
        lemma_first_with_none(a, a[i].id_commodity->0);
    }
}

/// What the first list lacks comes out in the order of the second.
proof fn lemma_interleaved_foreign(
    a: Seq<CommodityView>,
    b: Seq<CommodityView>,
    i: int,
    j: int,
)
    requires
        0 <= i <= a.len(),
        0 <= j <= b.len(),
    ensures
        foreign(interleaved(a, b, i, j), a) == foreign(b.skip(j), a),
    decreases a.len() - i + b.len() - j,
{
    if i < a.len() {
        lemma_not_foreign(a, i);
    }
    if j < b.len() {
        lemma_foreign_next(b, j, a);
    } else {
        assert(b.skip(j) =~= Seq::empty());
    }
    if nameless_at(a, i) {
        lemma_interleaved_foreign(a, b, i + 1, j);
        lemma_foreign_cons(a[i], interleaved(a, b, i + 1, j), a);
    } else if nameless_at(b, j) {
        lemma_interleaved_foreign(a, b, i, j + 1);
        lemma_foreign_cons(b[j], interleaved(a, b, i, j + 1), a);
    } else {
        match (id_at(a, i), id_at(b, j)) {
            (Some(x), Some(y)) => {
                if x == y {
                    lemma_interleaved_foreign(a, b, i + 1, j + 1);
                    lemma_foreign_cons(
                        merged_row(a[i], b[j]),
                        interleaved(a, b, i + 1, j + 1),
                        a,
                    );
                } else if !has_id(a, y) {
                    lemma_interleaved_foreign(a, b, i, j + 1);
                    lemma_foreign_cons(b[j], interleaved(a, b, i, j + 1), a);
                } else {
                    let row = match first_with(b, x) {
                        Some(other) => merged_row(a[i], other),
                        None => a[i],
                    };
                    lemma_interleaved_foreign(a, b, i + 1, j);
                    lemma_foreign_cons(row, interleaved(a, b, i + 1, j), a);
                }
            },
            (Some(_), None) => {
                lemma_interleaved_foreign(a, b, i + 1, j);
                lemma_foreign_cons(a[i], interleaved(a, b, i + 1, j), a);
            },
            (None, Some(_)) => {
                lemma_interleaved_foreign(a, b, i, j + 1);
                lemma_foreign_cons(b[j], interleaved(a, b, i, j + 1), a);
            },
            (None, None) => {},
        }
    }
}

/// The foreign rows have the commodities that the list lacks.
proof fn lemma_foreign_has(rows: Seq<CommodityView>, list: Seq<CommodityView>, id: u32)
    requires
        !has_id(list, id),
    ensures
        has_id(foreign(rows, list), id) == has_id(rows, id),
    decreases rows.len(),
{
    if rows.len() > 0 {
        lemma_foreign_has(rows.drop_last(), list, id);
        let before = foreign(rows.drop_last(), list);
        if is_foreign(rows.last(), list) {
            assert(before.push(rows.last()).drop_last() =~= before);
        }
    }
}

/// Repetitions may be dropped before or after.
proof fn lemma_foreign_deduplicated(rows: Seq<CommodityView>, list: Seq<CommodityView>)
    ensures
        foreign(deduplicated(rows), list) == deduplicated(foreign(rows, list)),
    decreases rows.len(),
{
    if rows.len() > 0 {
        let shorter = rows.drop_last();
        let row = rows.last();
        lemma_foreign_deduplicated(shorter, list);
        assert(deduplicated(shorter).push(row).drop_last() =~= deduplicated(shorter));
        assert(foreign(shorter, list).push(row).drop_last() =~= foreign(shorter, list));
        if is_foreign(row, list) {
            lemma_foreign_has(shorter, list, row.id_commodity->0);
        }
    }
}

/// A commodity may be dropped before or after.
proof fn lemma_foreign_without(rows: Seq<CommodityView>, list: Seq<CommodityView>, id: u32)
    ensures
        foreign(without(rows, id), list) == without(foreign(rows, list), id),
    decreases rows.len(),
{
    if rows.len() > 0 {
        let shorter = rows.drop_last();
        let row = rows.last();
        lemma_foreign_without(shorter, list, id);
        assert(without(shorter, id).push(row).drop_last() =~= without(shorter, id));
        assert(foreign(shorter, list).push(row).drop_last() =~= foreign(shorter, list));
    }
}

/// The second list's rows that the first lacks: each commodity once, and without generic
/// ship ammunition where either list has a sized one.
pub open spec fn added_rows(a: Seq<CommodityView>, b: Seq<CommodityView>) -> Seq<CommodityView> {
    let rows = deduplicated(foreign(b, a));
    if has_sized_ammo(a) || has_sized_ammo(b) {
        without(rows, GENERIC_AMMO)
    } else {
        rows
    }
}

/// A merged extraction keeps the order of the first one's rows. The rows that only the
/// second has are the second's own, in its order. And where the two have the commodities
/// that they share in one order, all of the second one's order is kept: so two
/// screen-ordered lists give a screen-ordered list.
pub proof fn law_merge_keeps_order(a: ExtractionView, b: ExtractionView)
    ensures
        keeps_order(merged(a, b).commodities, a.commodities),
        foreign(merged(a, b).commodities, a.commodities) == added_rows(
            a.commodities,
            b.commodities,
        ),
        distinct_ids(a.commodities) && distinct_ids(b.commodities) && agree(
            a.commodities,
            b.commodities,
        ) ==> keeps_order(merged(a, b).commodities, b.commodities),
{
    let p = a.commodities;
    let q = b.commodities;
    let rows = merged_rows(p, q);
    let mixed = interleaved(p, q, 0, 0);
    lemma_interleaved_foreign(p, q, 0, 0);
    assert(q.skip(0) =~= q);
    lemma_foreign_deduplicated(mixed, p);
    lemma_foreign_without(deduplicated(mixed), p, GENERIC_AMMO);
    lemma_merged_sized_ammo(p, q);
    assert(p.take(0) =~= Seq::empty());
    assert(q.take(0) =~= Seq::empty());
    assert forall|x: u32, y: u32| #[trigger]
        comes_before(p, x, y) && has_id(rows, x) && has_id(rows, y) implies comes_before(
        rows,
        x,
        y,
    ) by {
        lemma_before_irreflexive(p, x, y);
        lemma_first_order(p, q, 0, 0, x, y);
        lemma_merged_order(p, q, x, y);
    }
    if distinct_ids(p) && distinct_ids(q) && agree(p, q) {
        assert forall|x: u32, y: u32| #[trigger]
            comes_before(q, x, y) && has_id(rows, x) && has_id(rows, y) implies comes_before(
            rows,
            x,
            y,
        ) by {
            lemma_before_irreflexive(q, x, y);
            lemma_second_order(p, q, 0, 0, x, y);
            lemma_merged_order(p, q, x, y);
        }
    }
}

proof fn lemma_before_irreflexive(rows: Seq<CommodityView>, x: u32, y: u32)
    requires
        comes_before(rows, x, y),
    ensures
        x != y,
{
}

/// Of two values, each with a confidence, `value` and `confidence` are the better one: the
/// one that is there, and where both are, the one with the higher confidence, the first
/// where they are alike.
pub open spec fn is_better_of<T>(
    value: Option<T>,
    confidence: u8,
    first: Option<T>,
    first_confidence: u8,
    second: Option<T>,
    second_confidence: u8,
) -> bool {
    match (first, second) {
        (Some(_), Some(_)) => {
            &&& confidence >= first_confidence && confidence >= second_confidence
            &&& if confidence == first_confidence {
                value == first
            } else {
                value == second && confidence == second_confidence
            }
        },
        (None, Some(_)) => value == second && confidence == second_confidence,
        (_, None) => value == first && confidence == first_confidence,
    }
}

/// `row` is what two rows of one commodity make together: field by field the better one.
/// A status comes with its label, from the first row where that has one.
pub open spec fn is_better_row(row: CommodityView, x: CommodityView, y: CommodityView) -> bool {
    &&& row.id_commodity == x.id_commodity
    &&& row.included == x.included
    &&& is_better_of(
        Some(row.name),
        row.name_confidence,
        Some(x.name),
        x.name_confidence,
        Some(y.name),
        y.name_confidence,
    )
    &&& is_better_of(
        row.quantity_scu,
        row.quantity_confidence,
        x.quantity_scu,
        x.quantity_confidence,
        y.quantity_scu,
        y.quantity_confidence,
    )
    &&& is_better_of(
        row.price,
        row.price_confidence,
        x.price,
        x.price_confidence,
        y.price,
        y.price_confidence,
    )
    &&& match (x.status, y.status) {
        (None, Some(_)) => row.status == y.status && row.stock_label == y.stock_label,
        _ => row.status == x.status && row.stock_label == x.stock_label,
    }
}

/// Merging two rows takes the better of each field.
pub proof fn law_merged_rows_take_the_better(x: CommodityView, y: CommodityView)
    ensures
        is_better_row(merged_row(x, y), x, y),
{
}

/// A commodity that both extractions have is in the merged one with the better of each
/// field, and one that a single extraction has is there as it was.
pub proof fn law_merge_takes_the_better(a: ExtractionView, b: ExtractionView, id: u32)
    requires
        id != 128 || !(exists|k: int|
            0 <= k < a.commodities.len() && 201 <= (
            #[trigger] a.commodities[k]).id_commodity.unwrap_or(0) <= 207) && !(exists|k: int|
            0 <= k < b.commodities.len() && 201 <= (
            #[trigger] b.commodities[k]).id_commodity.unwrap_or(0) <= 207),
    ensures
        match (
            first_with(a.commodities, id),
            first_with(b.commodities, id),
            first_with(merged(a, b).commodities, id),
        ) {
            (Some(x), Some(y), Some(row)) => is_better_row(row, x, y),
            (Some(x), None, Some(row)) => row == x,
            (None, Some(y), Some(row)) => row == y,
            (None, None, None) => true,
            _ => false,
        },
{
    law_merge_unites(a, b, id);
    if id == 128 {
        assert(!has_sized_ammo(a.commodities));
        assert(!has_sized_ammo(b.commodities));
    }
}

/// Generic ship ammunition is not in a merged extraction where either has a sized one.
pub proof fn law_merge_drops_generic_ammo(a: ExtractionView, b: ExtractionView, k: int, size: u32)
    requires
        0 <= k < a.commodities.len() + b.commodities.len(),
        1 <= size <= 7,
        (a.commodities + b.commodities)[k].id_commodity == Some((200 + size) as u32),
    ensures
        forall|l: int|
            0 <= l < merged(a, b).commodities.len() ==> (
            #[trigger] merged(a, b).commodities[l]).id_commodity != Some(128u32),
{
    law_merge_unites(a, b, 128);
    lemma_first_with_none(merged(a, b).commodities, 128);
    if k < a.commodities.len() {
        assert(is_sized_ammo(a.commodities[k]));
    } else {
        assert(is_sized_ammo(b.commodities[k - a.commodities.len()]));
    }
}

/// The merged terminal is one that was named, and of two the surer one, the first where
/// they are alike; its candidates come with it. The type is the first one's, where that
/// has one.
pub proof fn law_merge_takes_the_surer_terminal(a: ExtractionView, b: ExtractionView)
    ensures
        ({
            let r = merged(a, b);
            let taken = |e: ExtractionView|
                r.id_terminal == e.id_terminal && r.terminal_name == e.terminal_name
                    && r.terminal_confidence == e.terminal_confidence && r.terminal_candidates
                    == e.terminal_candidates;
            &&& match (a.id_terminal, b.id_terminal) {
                (Some(_), Some(_)) => if a.terminal_confidence >= b.terminal_confidence {
                    taken(a)
                } else {
                    taken(b)
                },
                (None, Some(_)) => taken(b),
                (_, None) => taken(a),
            }
            &&& r.terminal_type == match a.terminal_type {
                Some(t) => Some(t),
                None => b.terminal_type,
            }
            &&& r.screenshot == a.screenshot
            &&& r.captured_at == a.captured_at
        }),
{
}

/// The row of a commodity is the first one there is.
pub proof fn law_first_row_counts(rows: Seq<CommodityView>, id: u32)
    ensures
        match first_with(rows, id) {
            Some(row) => exists|k: int|
                0 <= k < rows.len() && #[trigger] rows[k] == row && row.id_commodity == Some(id)
                    && forall|j: int| 0 <= j < k ==> (#[trigger] rows[j]).id_commodity != Some(id),
            None => forall|j: int|
                0 <= j < rows.len() ==> (#[trigger] rows[j]).id_commodity != Some(id),
        },
    decreases rows.len(),
{
    if rows.len() > 0 {
        let shorter = rows.drop_last();
        law_first_row_counts(shorter, id);
        assert(forall|j: int| 0 <= j < shorter.len() ==> #[trigger] rows[j] == shorter[j]);
        match first_with(shorter, id) {
            Some(row) => {
                let k = choose|k: int|
                    0 <= k < shorter.len() && #[trigger] shorter[k] == row && row.id_commodity
                        == Some(id) && forall|j: int|
                        0 <= j < k ==> (#[trigger] shorter[j]).id_commodity != Some(id);
                assert(rows[k] == row);
                assert forall|j: int| 0 <= j < k implies (#[trigger] rows[j]).id_commodity != Some(
                    id,
                ) by {
                    assert(shorter[j].id_commodity != Some(id));
                }
            },
            None => {
                assert forall|j: int| 0 <= j < shorter.len() implies (
                #[trigger] rows[j]).id_commodity != Some(id) by {
                    assert(shorter[j].id_commodity != Some(id));
                }
                assert(rows[rows.len() - 1] == rows.last());
            },
        }
    }
}

/// How often a row stands among the rows.
pub open spec fn occurrences(rows: Seq<CommodityView>, row: CommodityView) -> nat
    decreases rows.len(),
{
    if rows.len() == 0 {
        0
    } else {
        occurrences(rows.drop_last(), row) + if rows.last() == row {
            1nat
        } else {
            0nat
        }
    }
}

proof fn lemma_occurrences_cons(first: CommodityView, rows: Seq<CommodityView>, row: CommodityView)
    ensures
        occurrences(seq![first] + rows, row) == occurrences(rows, row) + if first == row {
            1nat
        } else {
            0nat
        },
    decreases rows.len(),
{
    let all = seq![first] + rows;
    if rows.len() == 0 {
        assert(all.drop_last() =~= Seq::empty());
        assert(all.last() == first);
        assert(occurrences(all.drop_last(), row) == 0);
        assert(occurrences(rows, row) == 0);
    } else {
        lemma_occurrences_cons(first, rows.drop_last(), row);
        assert(all.drop_last() =~= seq![first] + rows.drop_last());
        assert(all.last() == rows.last());
    }
}

proof fn lemma_occurrences_next(rows: Seq<CommodityView>, i: int, row: CommodityView)
    requires
        0 <= i < rows.len(),
    ensures
        occurrences(rows.skip(i), row) == occurrences(rows.skip(i + 1), row) + if rows[i] == row {
            1nat
        } else {
            0nat
        },
{
    assert(rows.skip(i) =~= seq![rows[i]] + rows.skip(i + 1));
    lemma_occurrences_cons(rows[i], rows.skip(i + 1), row);
}

proof fn lemma_interleaved_nameless(
    a: Seq<CommodityView>,
    b: Seq<CommodityView>,
    i: int,
    j: int,
    row: CommodityView,
)
    requires
        row.id_commodity is None,
        0 <= i <= a.len(),
        0 <= j <= b.len(),
    ensures
        occurrences(interleaved(a, b, i, j), row) == occurrences(a.skip(i), row) + occurrences(
            b.skip(j),
            row,
        ),
    decreases a.len() - i + b.len() - j,
{
    if i < a.len() {
        lemma_occurrences_next(a, i, row);
    } else {
        assert(a.skip(i) =~= Seq::empty());
    }
    if j < b.len() {
        lemma_occurrences_next(b, j, row);
    } else {
        assert(b.skip(j) =~= Seq::empty());
    }
    if nameless_at(a, i) {
        lemma_interleaved_nameless(a, b, i + 1, j, row);
        lemma_occurrences_cons(a[i], interleaved(a, b, i + 1, j), row);
    } else if nameless_at(b, j) {
        lemma_interleaved_nameless(a, b, i, j + 1, row);
        lemma_occurrences_cons(b[j], interleaved(a, b, i, j + 1), row);
    } else {
        match (id_at(a, i), id_at(b, j)) {
            (Some(x), Some(y)) => {
                if x == y {
                    lemma_interleaved_nameless(a, b, i + 1, j + 1, row);
                    lemma_occurrences_cons(
                        merged_row(a[i], b[j]),
                        interleaved(a, b, i + 1, j + 1),
                        row,
                    );
                } else if !has_id(a, y) {
                    lemma_interleaved_nameless(a, b, i, j + 1, row);
                    lemma_occurrences_cons(b[j], interleaved(a, b, i, j + 1), row);
                } else {
                    let next = match first_with(b, x) {
                        Some(other) => merged_row(a[i], other),
                        None => a[i],
                    };
                    lemma_interleaved_nameless(a, b, i + 1, j, row);
                    lemma_occurrences_cons(next, interleaved(a, b, i + 1, j), row);
                }
            },
            (Some(_), None) => {
                lemma_interleaved_nameless(a, b, i + 1, j, row);
                lemma_occurrences_cons(a[i], interleaved(a, b, i + 1, j), row);
            },
            (None, Some(_)) => {
                lemma_interleaved_nameless(a, b, i, j + 1, row);
                lemma_occurrences_cons(b[j], interleaved(a, b, i, j + 1), row);
            },
            (None, None) => {},
        }
    }
}

proof fn lemma_nameless_stay(rows: Seq<CommodityView>, id: u32, row: CommodityView)
    requires
        row.id_commodity is None,
    ensures
        occurrences(deduplicated(rows), row) == occurrences(rows, row),
        occurrences(without(rows, id), row) == occurrences(rows, row),
    decreases rows.len(),
{
    if rows.len() > 0 {
        let shorter = rows.drop_last();
        lemma_nameless_stay(shorter, id, row);
        assert(deduplicated(shorter).push(rows.last()).drop_last() =~= deduplicated(shorter));
        assert(without(shorter, id).push(rows.last()).drop_last() =~= without(shorter, id));
    }
}

/// No row without a commodity is lost or added in a merge.
pub proof fn law_merge_keeps_rows_without_commodity(
    a: ExtractionView,
    b: ExtractionView,
    row: CommodityView,
)
    requires
        row.id_commodity is None,
    ensures
        occurrences(merged(a, b).commodities, row) == occurrences(a.commodities, row)
            + occurrences(b.commodities, row),
{
    let p = a.commodities;
    let q = b.commodities;
    lemma_interleaved_nameless(p, q, 0, 0, row);
    assert(p.skip(0) =~= p && q.skip(0) =~= q);
    let rows = interleaved(p, q, 0, 0);
    lemma_nameless_stay(rows, GENERIC_AMMO, row);
    lemma_nameless_stay(deduplicated(rows), GENERIC_AMMO, row);
}

} // verus!
