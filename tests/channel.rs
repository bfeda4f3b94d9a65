use crossbeam_channel::{bounded, TrySendError};
use orderbook::orderbook::Orderbook;
use orderbook::types::{Level, Price, Qty, Side, Update};

#[test]
fn full_channel_refuses_one_more() {
    let capacity: usize = 4;
    let (tx, rx) = bounded(capacity);
    let mut book = Orderbook::new();
    let mut sent = 0u64;
    for i in 0..capacity as u64 {
        let u = Update::Incremental {
            timestamp: i,
            side: Side::Bid,
            level: Level { price: Price(100 + i), qty: Qty(1) },
        };
        assert!(tx.try_send(book.apply(&u, i)).is_ok());
        sent += 1;
    }
    let k = 2;
    for n in 1..=k {
        assert_eq!(rx.recv().unwrap().seq, n);
    }
    for _ in 0..k {
        let u = Update::Incremental { timestamp: 9, side: Side::Ask, level: Level { price: Price(500), qty: Qty(1) } };
        assert!(tx.try_send(book.apply(&u, 9)).is_ok());
        sent += 1;
    }
    let u = Update::Incremental { timestamp: 10, side: Side::Ask, level: Level { price: Price(501), qty: Qty(1) } };
    assert!(matches!(tx.try_send(book.apply(&u, 10)), Err(TrySendError::Full(_))));
    drop(tx);
    let rest: Vec<u64> = rx.iter().map(|n| n.seq).collect();
    assert_eq!(rest, vec![3, 4, 5, 6]);
    assert_eq!(sent, 6);
}
