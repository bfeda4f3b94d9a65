use orderbook::orderbook::Orderbook;
use orderbook::types::{Level, Price, Qty, Side, Update};

fn price(s: &str) -> Price {
    Price::from_decimal(s.as_bytes()).unwrap()
}

fn qty(s: &str) -> Qty {
    Qty::from_decimal(s.as_bytes()).unwrap()
}

fn level(p: &str, q: &str) -> Level {
    Level { price: price(p), qty: qty(q) }
}

fn incremental(timestamp: u64, side: Side, p: &str, q: &str) -> Update {
    Update::Incremental { timestamp, side, level: level(p, q) }
}

fn scenario_snapshot() -> Update {
    Update::Snapshot {
        timestamp: 1,
        bids: vec![level("100.00", "1.0"), level("99.00", "2.0")],
        asks: vec![level("101.00", "1.5"), level("102.00", "3.0")],
    }
}

#[test]
fn test_snapshot_and_best() {
    let mut book = Orderbook::new();
    let update = Update::Snapshot {
        timestamp: 1,
        bids: vec![level("100.0", "1.0"), level("99.0", "2.0")],
        asks: vec![level("101.0", "1.5"), level("102.0", "3.0")],
    };
    book.apply(&update, 0);
    assert_eq!(book.best_bid().unwrap().price, price("100.0"));
    assert_eq!(book.best_ask().unwrap().price, price("101.0"));
}

#[test]
fn test_incremental_delete() {
    let mut book = Orderbook::new();
    let snap = Update::Snapshot {
        timestamp: 1,
        bids: vec![level("100.0", "1.0"), level("99.0", "2.0")],
        asks: vec![level("101.0", "1.5")],
    };
    book.apply(&snap, 0);
    let del = incremental(2, Side::Bid, "100.0", "0.0");
    book.apply(&del, 0);
    assert_eq!(book.best_bid().unwrap().price, price("99.0"));
}

#[test]
fn test_incremental_new_best() {
    let mut book = Orderbook::new();
    let snap = Update::Snapshot {
        timestamp: 1,
        bids: vec![level("100.0", "1.0")],
        asks: vec![level("102.0", "1.0")],
    };
    book.apply(&snap, 0);
    let upd = incremental(2, Side::Ask, "101.0", "0.5");
    book.apply(&upd, 0);
    assert_eq!(book.best_ask().unwrap().price, price("101.0"));
}

#[test]
fn snapshot_sets_both_extremes() {
    let mut book = Orderbook::new();
    let n = book.apply(&scenario_snapshot(), 7);
    assert_eq!(book.best_bid(), Some(level("100.00", "1.0")));
    assert_eq!(book.best_ask(), Some(level("101.00", "1.5")));
    assert_eq!(n.best_bid, Some(level("100.00", "1.0")));
    assert_eq!(n.best_ask, Some(level("101.00", "1.5")));
    assert_eq!(n.update_timestamp, 1);
    assert_eq!(n.engine_send_ns, 7);
    assert_eq!(n.seq, 1);
    assert_eq!(book.bid_depth(), 2);
    assert_eq!(book.ask_depth(), 2);
}

#[test]
fn deleting_best_bid_falls_back_to_next() {
    let mut book = Orderbook::new();
    book.apply(&scenario_snapshot(), 0);
    book.apply(&incremental(2, Side::Bid, "100.00", "0.0"), 0);
    assert_eq!(book.best_bid(), Some(level("99.00", "2.0")));
    assert_eq!(book.bid_depth(), 1);
}

#[test]
fn replacing_best_ask_quantity_keeps_price() {
    let mut book = Orderbook::new();
    book.apply(&scenario_snapshot(), 0);
    book.apply(&incremental(2, Side::Ask, "101.00", "0.5"), 0);
    assert_eq!(book.best_ask(), Some(level("101.00", "0.5")));
    assert_eq!(book.ask_depth(), 2);
}

#[test]
fn better_ask_takes_the_cache() {
    let mut book = Orderbook::new();
    let snap = Update::Snapshot {
        timestamp: 1,
        bids: vec![level("100.00", "1.0")],
        asks: vec![level("102.00", "1.0")],
    };
    book.apply(&snap, 0);
    book.apply(&incremental(2, Side::Ask, "101.00", "0.5"), 0);
    assert_eq!(book.best_ask(), Some(level("101.00", "0.5")));
    assert_eq!(book.best_bid(), Some(level("100.00", "1.0")));
}

#[test]
fn first_bid_on_empty_book() {
    let mut book = Orderbook::new();
    let n = book.apply(&incremental(5, Side::Bid, "105.00", "1.0"), 0);
    assert_eq!(book.best_bid(), Some(level("105.00", "1.0")));
    assert_eq!(book.best_ask(), None);
    assert_eq!(n.seq, 1);
}

#[test]
fn snapshot_omits_zero_levels() {
    let mut book = Orderbook::new();
    let snap = Update::Snapshot {
        timestamp: 1,
        bids: vec![level("100.00", "1.0"), level("99.50", "0.0"), level("99.00", "2.0")],
        asks: vec![level("101.00", "0"), level("102.00", "3.0")],
    };
    book.apply(&snap, 0);
    assert_eq!(book.bid_depth(), 2);
    assert_eq!(book.ask_depth(), 1);
    assert_eq!(book.best_ask(), Some(level("102.00", "3.0")));
}

#[test]
fn snapshot_drops_levels_it_does_not_list() {
    let mut book = Orderbook::new();
    book.apply(&scenario_snapshot(), 0);
    book.apply(&incremental(2, Side::Bid, "98.00", "4.0"), 0);
    let snap = Update::Snapshot { timestamp: 3, bids: vec![level("97.00", "1.0")], asks: vec![] };
    book.apply(&snap, 0);
    assert_eq!(book.bid_depth(), 1);
    assert_eq!(book.ask_depth(), 0);
    assert_eq!(book.best_bid(), Some(level("97.00", "1.0")));
    assert_eq!(book.best_ask(), None);
}

#[test]
fn sequence_numbers_count_updates() {
    let mut book = Orderbook::new();
    let updates = vec![
        incremental(1, Side::Bid, "100.00", "1.0"),
        scenario_snapshot(),
        incremental(3, Side::Ask, "101.00", "0.0"),
        incremental(4, Side::Ask, "150.00", "0.0"),
        incremental(5, Side::Bid, "99.50", "2.0"),
    ];
    for (i, u) in updates.iter().enumerate() {
        let n = book.apply(u, 0);
        assert_eq!(n.seq, i as u64 + 1);
        assert_eq!(book.seq(), i as u64 + 1);
    }
}

#[test]
fn deleting_absent_price_changes_nothing() {
    let mut book = Orderbook::new();
    book.apply(&scenario_snapshot(), 0);
    let bid = book.best_bid();
    let ask = book.best_ask();
    book.apply(&incremental(2, Side::Bid, "42.00", "0.0"), 0);
    book.apply(&incremental(3, Side::Ask, "142.00", "0.0"), 0);
    assert_eq!(book.best_bid(), bid);
    assert_eq!(book.best_ask(), ask);
    assert_eq!(book.bid_depth(), 2);
    assert_eq!(book.ask_depth(), 2);
}

#[test]
fn worse_bid_leaves_cache_and_extremes_track_deletes() {
    let mut book = Orderbook::new();
    book.apply(&incremental(1, Side::Bid, "100.00", "1.0"), 0);
    book.apply(&incremental(2, Side::Bid, "98.00", "1.0"), 0);
    assert_eq!(book.best_bid(), Some(level("100.00", "1.0")));
    book.apply(&incremental(3, Side::Bid, "100.00", "0"), 0);
    assert_eq!(book.best_bid(), Some(level("98.00", "1.0")));
    book.apply(&incremental(4, Side::Bid, "98.00", "0"), 0);
    assert_eq!(book.best_bid(), None);
    assert_eq!(book.bid_depth(), 0);
}
