use datarunner_core::merge::{merge, merge_commodity};
use datarunner_core::model::{Commodity, Extraction, TerminalType};

fn row(id: u32) -> Commodity {
    let mut c = Commodity::new("row");
    c.id_commodity = Some(id);
    c
}

fn extraction(ids: &[u32]) -> Extraction {
    let mut e = Extraction::new("s.jpg");
    e.commodities = ids.iter().map(|id| row(*id)).collect();
    e
}

fn ids(e: &Extraction) -> Vec<Option<u32>> {
    e.commodities.iter().map(|c| c.id_commodity).collect()
}

fn merged_ids(a: &[u32], b: &[u32]) -> Vec<u32> {
    ids(&merge(extraction(a), extraction(b))).into_iter().flatten().collect()
}

#[test]
fn merging_unites_and_keeps_both_orders() {
    assert_eq!(merged_ids(&[1, 3], &[2, 3]), vec![2, 1, 3]);
    assert_eq!(merged_ids(&[1, 2, 3], &[]), vec![1, 2, 3]);
    assert_eq!(merged_ids(&[], &[4, 5]), vec![4, 5]);
    // Where the orders differ, the first list decides.
    assert_eq!(merged_ids(&[1, 2], &[2, 1]), vec![1, 2]);
}

#[test]
fn rows_that_only_the_second_list_has_keep_its_order() {
    // Also where the lists disagree on what they share.
    let first = [1, 2];
    let second = [9, 2, 8, 1, 7];
    let rows = merged_ids(&first, &second);
    let added: Vec<u32> = rows.iter().copied().filter(|id| !first.contains(id)).collect();
    assert_eq!(added, vec![9, 8, 7]);
    // Generic ammunition is among them only where no sized one is there.
    let added: Vec<u32> =
        merged_ids(&[1], &[5, 128, 203, 5]).into_iter().filter(|id| *id != 1).collect();
    assert_eq!(added, vec![5, 203]);
    let added: Vec<u32> = merged_ids(&[1], &[5, 128]).into_iter().filter(|id| *id != 1).collect();
    assert_eq!(added, vec![5, 128]);
}

#[test]
fn merging_drops_repetitions() {
    assert_eq!(merged_ids(&[1, 2, 1], &[2]), vec![1, 2]);
    assert_eq!(merged_ids(&[1], &[7, 7]), vec![7, 1]);
}

#[test]
fn generic_ammunition_gives_way_to_a_sized_one() {
    assert_eq!(merged_ids(&[128, 44], &[203]), vec![203, 44]);
    assert_eq!(merged_ids(&[128, 44], &[208]), vec![208, 128, 44]);
}

#[test]
fn rows_without_an_id_hide_nothing_behind_them() {
    let mut a = Extraction::new("s.jpg");
    a.commodities = vec![Commodity::new("?"), row(44)];
    a.commodities[1].status = Some(3);
    let r = merge(a.clone(), Extraction::new("s.jpg"));
    assert_eq!(ids(&r), vec![None, Some(44)]);
    assert_eq!(r.commodities[1].status, Some(3));
    let r = merge(Extraction::new("s.jpg"), a.clone());
    assert_eq!(ids(&r), vec![None, Some(44)]);

    // A commodity behind such a row is still merged with its like.
    let mut b = extraction(&[44, 7]);
    b.commodities[0].price = Some(5);
    b.commodities.push(Commodity::new("??"));
    let r = merge(a, b);
    assert_eq!(ids(&r), vec![None, Some(44), Some(7), None]);
    assert_eq!((r.commodities[1].status, r.commodities[1].price), (Some(3), Some(5)));
}

#[test]
fn the_more_confident_terminal_wins() {
    let mut a = extraction(&[]);
    a.id_terminal = Some(1);
    a.terminal_name = Some("A".to_string());
    a.terminal_confidence = 60;
    let mut b = extraction(&[]);
    b.id_terminal = Some(2);
    b.terminal_name = Some("B".to_string());
    b.terminal_confidence = 61;
    b.terminal_type = Some(TerminalType::Buy);
    let r = merge(a.clone(), b.clone());
    assert_eq!((r.id_terminal, r.terminal_confidence), (Some(2), 61));
    assert_eq!(r.terminal_type, Some(TerminalType::Buy));
    b.terminal_confidence = 60;
    let r = merge(a, b);
    assert_eq!(r.terminal_name.as_deref(), Some("A"));
}

#[test]
fn rows_take_the_better_of_each_field() {
    let mut base = row(1);
    base.name_confidence = 80;
    base.price = Some(10);
    base.price_confidence = 50;
    base.quantity_scu = Some(3);
    base.quantity_confidence = 90;
    let mut other = row(1);
    other.name = "better".to_string();
    other.name_confidence = 81;
    other.price = Some(11);
    other.price_confidence = 51;
    other.quantity_scu = Some(4);
    other.quantity_confidence = 90;
    other.status = Some(5);
    other.stock_label = Some("high inventory".to_string());
    merge_commodity(&mut base, &other);
    assert_eq!(base.name, "better");
    assert_eq!((base.price, base.price_confidence), (Some(11), 51));
    assert_eq!(base.quantity_scu, Some(3)); // equally sure: the first stays
    assert_eq!((base.status, base.stock_label.as_deref()), (Some(5), Some("high inventory")));
}
