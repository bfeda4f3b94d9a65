use orderbook::parser::{
    find_newline, levels_from_json_rows, parse_all, parse_csv_fields, parse_levels_json, parse_line,
    parse_u64_fast, parse_u64_plain, skip_line, trim_quotes,
};
use orderbook::types::{Level, Price, Qty, Side, Update};

#[test]
fn test_parse_incremental() {
    let line = b"incremental,binance,BTC/USDT,1700000000100,bid,,,99999.99,0.0";
    let update = parse_line(line).unwrap();
    match update {
        Update::Incremental { timestamp, side, level } => {
            assert_eq!(timestamp, 1700000000100);
            assert_eq!(side, Side::Bid);
            assert_eq!(level.price, Price::from_decimal(b"99999.99").unwrap());
            assert!(level.qty.is_zero());
        }
        _ => panic!("Expected incremental"),
    }
}

#[test]
fn test_parse_u64_fast() {
    assert_eq!(parse_u64_fast(b"1700000000100"), 1700000000100u64);
    assert_eq!(parse_u64_fast(b"0"), 0);
}

#[test]
fn parse_u64_fast_wraps() {
    assert_eq!(parse_u64_fast(b""), 0);
    assert_eq!(parse_u64_fast(b"18446744073709551616"), 0);
}

#[test]
fn parse_u64_plain_is_strict() {
    assert_eq!(parse_u64_plain(b"1700000000000"), Some(1700000000000));
    assert_eq!(parse_u64_plain(b"+12"), Some(12));
    assert_eq!(parse_u64_plain(b""), None);
    assert_eq!(parse_u64_plain(b"+"), None);
    assert_eq!(parse_u64_plain(b"12a"), None);
    assert_eq!(parse_u64_plain(b"18446744073709551615"), Some(u64::MAX));
    assert_eq!(parse_u64_plain(b"18446744073709551616"), None);
}

#[test]
fn newline_search() {
    let data = b"ab\ncd";
    assert_eq!(find_newline(data, 0), 2);
    assert_eq!(find_newline(data, 3), 5);
    assert_eq!(find_newline(data, 9), 9);
    assert_eq!(skip_line(data, 0), 3);
}

#[test]
fn fields_respect_quotes() {
    let line = b"a,\"[[1,2]]\",,b";
    let spans = parse_csv_fields(line);
    assert_eq!(spans, vec![(0, 1), (2, 11), (12, 12), (13, 14)]);
    assert_eq!(parse_csv_fields(b""), vec![(0, 0)]);
}

#[test]
fn quotes_are_trimmed() {
    assert_eq!(trim_quotes(b"\"\"[1]\""), b"[1]");
    assert_eq!(trim_quotes(b"\"\"\""), b"");
    assert_eq!(trim_quotes(b"x"), b"x");
}

#[test]
fn json_levels_read_numbers() {
    let levels = parse_levels_json(b"[[99999.99, 0.527], [99998.86, 3.1404]]").unwrap();
    assert_eq!(
        levels,
        vec![
            Level { price: Price(9999999), qty: Qty(52_700_000) },
            Level { price: Price(9999886), qty: Qty(314_040_000) },
        ]
    );
    assert_eq!(parse_levels_json(b"[]"), Some(vec![]));
    assert_eq!(parse_levels_json(b"[[1.0]]"), None);
    assert_eq!(parse_levels_json(b"not json"), None);
    assert_eq!(parse_levels_json(b"[[-1.0, 2]]"), None);
}

#[test]
fn rows_become_levels() {
    let rows = vec![vec![b"100".to_vec(), b"1.5".to_vec()], vec![b"99.99".to_vec(), b"0".to_vec(), b"7".to_vec()]];
    assert_eq!(
        levels_from_json_rows(&rows),
        Some(vec![
            Level { price: Price(10000), qty: Qty(150_000_000) },
            Level { price: Price(9999), qty: Qty(0) },
        ])
    );
    let short = vec![vec![b"100".to_vec()]];
    assert_eq!(levels_from_json_rows(&short), None);
    let bad = vec![vec![b"1e2x".to_vec(), b"1".to_vec()]];
    assert_eq!(levels_from_json_rows(&bad), None);
    let exp = vec![vec![b"1e2".to_vec(), b"1".to_vec()]];
    assert_eq!(levels_from_json_rows(&exp), Some(vec![Level { price: Price(10000), qty: Qty(100_000_000) }]));
}

#[test]
fn snapshot_line_decodes() {
    let line = b"snapshot,binance,BTC/USDT,1700000000000,,\"[[100.0, 1.0], [99.0, 2.0]]\",\"[[101.0, 1.5]]\",,";
    match parse_line(line).unwrap() {
        Update::Snapshot { timestamp, bids, asks } => {
            assert_eq!(timestamp, 1700000000000);
            assert_eq!(bids, vec![
                Level { price: Price(10000), qty: Qty(100_000_000) },
                Level { price: Price(9900), qty: Qty(200_000_000) },
            ]);
            assert_eq!(asks, vec![Level { price: Price(10100), qty: Qty(150_000_000) }]);
        }
        _ => panic!("Expected snapshot"),
    }
}

#[test]
fn malformed_lines_are_skipped() {
    assert_eq!(parse_line(b""), None);
    assert_eq!(parse_line(b"trade,binance"), None);
    assert_eq!(parse_line(b"incremental,binance,BTC/USDT,1,bid"), None);
    assert_eq!(parse_line(b"incremental,binance,BTC/USDT,1,ask,,,abc,1"), None);
    assert_eq!(parse_line(b"snapshot,binance,BTC/USDT,x,,\"[]\",\"[]\",,"), None);
    assert_eq!(parse_line(b"snapshot,binance,BTC/USDT,1,,\"[\",\"[]\",,"), None);
    assert_eq!(parse_line(b"incremental,binance,BTC/USDT,17x0,bid,,,100.0,1.0"), None);
    assert_eq!(parse_line(b"incremental,binance,BTC/USDT,,bid,,,100.0,1.0"), None);
    assert_eq!(parse_line(b"snapshot,binance,BTC/USDT\xff,1,,\"[]\",\"[]\",,"), None);
}

#[test]
fn ask_side_for_anything_not_bid() {
    match parse_line(b"incremental,binance,BTC/USDT,5,ask,,,101.5,2").unwrap() {
        Update::Incremental { timestamp, side, level } => {
            assert_eq!(timestamp, 5);
            assert_eq!(side, Side::Ask);
            assert_eq!(level, Level { price: Price(10150), qty: Qty(200_000_000) });
        }
        _ => panic!("Expected incremental"),
    }
}

#[test]
fn whole_feed_skips_header_and_blank_lines() {
    let data = b"type,exchange,symbol,timestamp,side,bids,asks,price,size\r\n\
snapshot,binance,BTC/USDT,10,,\"[[100.0, 1.0]]\",\"[[101.0, 1.0]]\",,\r\n\
\r\n\
garbage\n\
incremental,binance,BTC/USDT,11,bid,,,100.0,0.0";
    let updates = parse_all(data);
    assert_eq!(updates.len(), 2);
    assert_eq!(
        updates[1],
        Update::Incremental { timestamp: 11, side: Side::Bid, level: Level { price: Price(10000), qty: Qty(0) } }
    );
    assert!(matches!(updates[0], Update::Snapshot { timestamp: 10, .. }));
    assert_eq!(parse_all(b""), vec![]);
    assert_eq!(parse_all(b"header only\n"), vec![]);
}

#[test]
fn exponent_prices_and_json_exponents_decode() {
    match parse_line(b"incremental,binance,BTC/USDT,7,bid,,,1e2,+2.5").unwrap() {
        Update::Incremental { timestamp, side, level } => {
            assert_eq!(timestamp, 7);
            assert_eq!(side, Side::Bid);
            assert_eq!(level, Level { price: Price(10000), qty: Qty(250_000_000) });
        }
        _ => panic!("Expected incremental"),
    }
    let levels = parse_levels_json(b"[[1.5e2, 2E-1]]").unwrap();
    assert_eq!(levels, vec![Level { price: Price(15000), qty: Qty(20_000_000) }]);
    let line = b"snapshot,binance,BTC/USDT,3,,\"[]\",\"[]\",,";
    assert!(matches!(parse_line(line), Some(Update::Snapshot { timestamp: 3, .. })));
}
