use pkbot::api::{market_summary, ohlc_query};
use pkbot::error::Error;
use pkbot::market::{Interval, MarketIdentifier, MarketSettings, OHLCChunk, OHLC};
use pkbot::store::{StoreMarketDataHandle, StoreMarketHandle};

fn market() -> MarketIdentifier {
    MarketIdentifier {
        base: "XBT".to_string(),
        quote: "USD".to_string(),
        exchange_name: "kraken".to_string(),
    }
}

fn candle(time: i64) -> OHLC {
    OHLC::new(
        time,
        "1.0".to_string(),
        "2.0".to_string(),
        "0.5".to_string(),
        "1.5".to_string(),
        "1.2".to_string(),
        "10".to_string(),
        3,
    )
}

fn tree(times: &[i64]) -> StoreMarketDataHandle {
    let mut t = StoreMarketDataHandle::new(market(), Interval::Min1);
    for time in times {
        t.insert(candle(*time));
    }
    t
}

fn times(v: &[OHLC]) -> Vec<i64> {
    v.iter().map(|c| c.time).collect()
}

#[test]
fn forward_iteration_is_time_ordered() {
    let t = tree(&[120, 0, 60, 180, 30]);
    assert_eq!(times(&t.candles()), vec![0, 30, 60, 120, 180]);
}

#[test]
fn insert_replaces_same_time() {
    let mut t = tree(&[0, 60]);
    let mut c = candle(60);
    c.close = "9.9".to_string();
    t.insert(c);
    let all = t.candles();
    assert_eq!(all.len(), 2);
    assert_eq!(all[1].close, "9.9");
}

#[test]
fn seek_laws_on_sample() {
    let t = tree(&[0, 60, 120]);
    assert_eq!(t.prev_ohlc(60).unwrap().time, 0);
    assert_eq!(t.next_ohlc(60).unwrap().time, 120);
    assert_eq!(t.prev_ohlc(61).unwrap().time, 60);
    assert_eq!(t.next_ohlc(59).unwrap().time, 60);
    assert!(t.prev_ohlc(0).is_none());
    assert!(t.next_ohlc(120).is_none());
    assert_eq!(t.first_ohlc().unwrap().time, 0);
    assert_eq!(t.last_ohlc().unwrap().time, 120);
    assert!(tree(&[]).first_ohlc().is_none());
    assert!(tree(&[]).last_ohlc().is_none());
}

#[test]
fn close_to_seeks() {
    let t = tree(&[0, 60, 120]);
    assert_eq!(t.prev_close_to(30), Some(60));
    assert_eq!(t.prev_close_to(60), Some(60));
    assert_eq!(t.prev_close_to(121), None);
    assert_eq!(t.next_close_to(90), Some(60));
    assert_eq!(t.next_close_to(120), Some(120));
    assert_eq!(t.next_close_to(-1), None);
    assert_eq!(t.ohlc(60).unwrap().time, 60);
    assert!(t.ohlc(61).is_none());
}

#[test]
fn close_range_is_inclusive() {
    let t = tree(&[0, 60, 120, 180]);
    assert_eq!(times(&t.close_range(0, 120).unwrap()), vec![0, 60, 120]);
    assert_eq!(times(&t.close_range(10, 130).unwrap()), vec![60, 120]);
    assert_eq!(t.close_range(61, 119), Err(Error::NoData));
    assert_eq!(tree(&[]).close_range(0, 100), Err(Error::NoData));
}

#[test]
fn exact_range_needs_both_ends() {
    let t = tree(&[0, 60, 120]);
    assert_eq!(times(&t.exact_range(0, 120).unwrap()), vec![0, 60, 120]);
    assert_eq!(times(&t.exact_range(60, 60).unwrap()), vec![60]);
    assert_eq!(t.exact_range(0, 100), Err(Error::NoData));
    assert_eq!(t.exact_range(10, 120), Err(Error::NoData));
    assert_eq!(t.exact_range(120, 0), Err(Error::NoData));
}

#[test]
fn extend_last_write_wins() {
    let mut t = tree(&[0]);
    let mut late = candle(0);
    late.count = 42;
    t.extend(vec![candle(60), late, candle(30)]);
    let all = t.candles();
    assert_eq!(times(&all), vec![0, 30, 60]);
    assert_eq!(all[0].count, 42);
}

#[test]
fn settings_round_trip() {
    let mut h = StoreMarketHandle::new(market());
    let first = h.settings();
    assert_eq!(first, MarketSettings { ohlc_refresh_rate: None });
    assert_eq!(h.settings(), MarketSettings::default());
    let x = MarketSettings { ohlc_refresh_rate: Some(Interval::Hour1) };
    h.set_settings(&x);
    assert_eq!(h.settings(), x);
}

#[test]
fn market_handle_trees_are_per_interval() {
    let mut h = StoreMarketHandle::new(market());
    h.extend(Interval::Min1, vec![candle(0), candle(60)]);
    h.extend(Interval::Hour1, vec![candle(3600)]);
    assert_eq!(h.interval(Interval::Min1).len(), 2);
    assert_eq!(h.interval(Interval::Hour1).len(), 1);
    assert_eq!(h.interval(Interval::Day1).len(), 0);
    assert_eq!(h.interval(Interval::Hour1).interval(), Interval::Hour1);
}

#[test]
fn interval_seconds_and_minutes() {
    assert_eq!(Interval::Min1.as_secs(), 60);
    assert_eq!(Interval::Hour4.as_secs(), 14_400);
    assert_eq!(Interval::Day15.as_secs(), 1_296_000);
    assert_eq!(Interval::from_minuts(1_440), Ok(Interval::Day1));
    assert_eq!(Interval::from_minuts(10_080), Ok(Interval::Day7));
    assert_eq!(Interval::from_minuts(7), Err(Error::InvalidInterval(7)));
}

#[test]
fn chunk_bounds() {
    let c = OHLCChunk::new(vec![candle(0), candle(60), candle(120)]);
    assert_eq!((c.begin, c.end, c.interval, c.duration), (0, 120, 60, 180));
    let single = OHLCChunk::new(vec![candle(5)]);
    assert_eq!((single.begin, single.end, single.interval, single.duration), (5, 5, 0, 0));
}

#[test]
fn market_names() {
    let m = market();
    assert_eq!(m.uid(), "kraken_XBT/USD");
    assert_eq!(m.pair_name(), "XBT/USD");
    assert_eq!(m.path(), "kraken/XBT/USD");
    assert_eq!(m.data_tree_uid(Interval::Min15), "kraken_XBT/USD_Min15");
    let parsed = MarketIdentifier::from("kraken/xbt/usd");
    assert_eq!(parsed, m);
    let partial = MarketIdentifier::from("kraken");
    assert_eq!((partial.base.as_str(), partial.quote.as_str()), ("", ""));
}

#[test]
fn market_summary_and_queries() {
    let t = tree(&[0, 60, 120]);
    let summary = market_summary(MarketSettings::default(), &t);
    assert_eq!((summary.first_ohlc, summary.last_ohlc), (Some(0), Some(120)));
    let empty = market_summary(MarketSettings::default(), &tree(&[]));
    assert_eq!((empty.first_ohlc, empty.last_ohlc), (None, None));
    assert_eq!(times(&ohlc_query(&t, 30, None, None).unwrap().data), vec![60, 120]);
    assert_eq!(times(&ohlc_query(&t, 0, Some(60), Some(true)).unwrap().data), vec![0, 60]);
    assert_eq!(ohlc_query(&t, 30, None, Some(true)), Err(Error::NoData));
    assert_eq!(ohlc_query(&tree(&[]), 0, None, None), Err(Error::NoData));
}

#[test]
fn store_keys_read_back() {
    use_key(0);
    use_key(60);
    use_key(-1);
    use_key(i64::MIN);
    use_key(i64::MAX);
}

fn use_key(t: i64) {
    assert_eq!(pkbot::store::key_time(&t.to_be_bytes()), t);
}
