use datarunner_core::trade::{entry_with_id, new_entry, TradeEntry, TradeLog, TradeOp, TradeSync};

fn entry(op: TradeOp, scu: u32, price: f64) -> TradeEntry {
    new_entry(
        op,
        44,
        "Iron",
        25,
        "Everus Harbor",
        "Stanton",
        scu,
        price.to_bits(),
        1_700_000_000,
        0,
    )
}

fn at(id: &str, created_at: i64) -> TradeEntry {
    let name = id.to_string();
    entry_with_id(name, TradeOp::Sell, 1, "c", 2, "t", "s", 3, 0, created_at)
}

#[test]
fn remove_entry() {
    let mut log = TradeLog::in_memory();
    let id = log.add(entry(TradeOp::Buy, 10, 100.0));
    assert_eq!(log.entries().len(), 1);
    log.remove(&id);
    assert!(log.entries().is_empty());
}

#[test]
fn entries_start_out_local() {
    let e = entry(TradeOp::Buy, 10, 100.5);
    assert_eq!(e.sync, TradeSync::Local);
    assert_eq!((e.uex_id, e.status_text.as_str()), (None, ""));
    assert_eq!(f64::from_bits(e.price_bits), 100.5);
    assert!(e.id.starts_with('t') && e.id.ends_with("-0"), "{}", e.id);
    assert_eq!(e.operation.as_str(), "buy");
    assert_eq!(TradeOp::Sell.as_str(), "sell");
}

#[test]
fn newest_entries_come_first() {
    let log = TradeLog::from_entries(vec![at("a", 5), at("b", 9), at("c", 7), at("d", 9)]);
    let ids: Vec<&str> = log.newest_first().iter().map(|e| e.id.as_str()).collect();
    assert_eq!(ids, vec!["b", "d", "c", "a"]);
}

#[test]
fn entries_are_found_and_changed_by_id() {
    let mut log = TradeLog::from_entries(vec![at("a", 5), at("b", 9)]);
    log.get_mut("b").unwrap().sync = TradeSync::Synced;
    assert!(log.get_mut("x").is_none());
    assert_eq!(log.entries()[0].sync, TradeSync::Local);
    assert_eq!(log.entries()[1].sync, TradeSync::Synced);
    log.remove("x");
    assert_eq!(log.entries().len(), 2);
}

#[test]
fn entries_that_were_on_their_way_are_local_again() {
    let mut log = TradeLog::from_entries(vec![at("a", 5), at("b", 9), at("c", 1)]);
    assert!(!log.reset_pending());
    log.get_mut("b").unwrap().sync = TradeSync::Pending;
    log.get_mut("c").unwrap().sync = TradeSync::Failed;
    assert!(log.reset_pending());
    let syncs: Vec<TradeSync> = log.entries().iter().map(|e| e.sync).collect();
    assert_eq!(syncs, vec![TradeSync::Local, TradeSync::Local, TradeSync::Failed]);
}
