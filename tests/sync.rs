use pkbot::exchange::{cache_is_fresh, refresh_action, refresh_since, OhlcPaging, RefreshAction};
use pkbot::market::{Interval, MarketIdentifier, OHLC};
use pkbot::store::StoreMarketHandle;
use pkbot::sync::{SyncMarket, SyncStep};

fn market() -> MarketIdentifier {
    MarketIdentifier {
        base: "XBT".to_string(),
        quote: "USD".to_string(),
        exchange_name: "kraken".to_string(),
    }
}

fn candle(time: i64) -> OHLC {
    OHLC::new(
        time,
        "1".to_string(),
        "1".to_string(),
        "1".to_string(),
        "1".to_string(),
        "1".to_string(),
        "1".to_string(),
        1,
    )
}

/// Serves the candles at or after `since`, at most `page` per call.
fn fake_exchange(all: &[i64], since: i64, page: usize) -> Vec<OHLC> {
    all.iter().filter(|t| **t >= since).take(page).map(|t| candle(*t)).collect()
}

fn fetch(all: &[i64], since: i64, page: usize) -> OhlcPaging {
    let mut paging = OhlcPaging::new(since);
    while let Some(next) = paging.next_request() {
        paging.feed(fake_exchange(all, next, page));
    }
    paging
}

fn grid_market(first_available: bool) -> SyncMarket {
    let mut store = StoreMarketHandle::new(market());
    let mut candles: Vec<OHLC> = (1..=3).map(|k| candle(60 * k)).collect();
    candles[0].first_available = first_available;
    store.extend(Interval::Min1, candles);
    SyncMarket::new(store)
}

#[test]
fn sync_of_empty_store_fetches_then_serves() {
    let mut m = SyncMarket::new(StoreMarketHandle::new(market()));
    let step = m.sync_periode(0, 120, Interval::Min1);
    assert_eq!(step, SyncStep::Fetch { since: 0, interval: Interval::Min1 });
    let chunk = fetch(&[0, 60, 120], 0, 10).finish().unwrap();
    assert_eq!(m.store_chunk(Interval::Min1, chunk), (0, 120));
    let got = m.store.interval(Interval::Min1).close_range(0, 120).unwrap();
    assert_eq!(got.iter().map(|c| c.time).collect::<Vec<_>>(), vec![0, 60, 120]);
    assert!(got[0].first_available);
    assert_eq!(m.sync_periode(0, 120, Interval::Min1), SyncStep::Ready { from: 0, to: 120 });
}

#[test]
fn paging_from_zero_gathers_every_page() {
    let all = [0, 60, 120, 180, 240];
    let paging = fetch(&all, 0, 2);
    let chunk = paging.finish().unwrap();
    let got: Vec<i64> = chunk.data.iter().map(|c| c.time).collect();
    assert_eq!(got, vec![0, 60, 60, 120, 120, 180, 180, 240, 240]);
    assert!(chunk.data[0].first_available);
    assert!(chunk.data[1..].iter().all(|c| !c.first_available));
    assert_eq!((chunk.begin, chunk.end), (0, 240));
}

#[test]
fn paging_from_later_marks_nothing() {
    let chunk = fetch(&[0, 60, 120], 60, 5).finish().unwrap();
    assert!(chunk.data.iter().all(|c| !c.first_available));
    assert_eq!(chunk.data[0].time, 60);
}

#[test]
fn paging_stops_after_short_page() {
    let mut paging = OhlcPaging::new(0);
    assert_eq!(paging.next_request(), Some(0));
    paging.feed(vec![candle(0), candle(60)]);
    assert_eq!(paging.next_request(), Some(60));
    paging.feed(vec![candle(60)]);
    assert_eq!(paging.next_request(), None);
    assert!(OhlcPaging::new(5).finish().is_none());
}

#[test]
fn availability_over_a_grid() {
    let mut m = grid_market(false);
    assert!(m.check_periode_availability(60, 180, Interval::Min1));
    assert!(m.check_periode_availability(90, 150, Interval::Min1));
    assert!(m.check_periode_availability(30, 180, Interval::Min1));
    assert!(!m.check_periode_availability(181, 200, Interval::Min1));
    assert!(!m.check_periode_availability(60, 59, Interval::Min1));
    assert!(!m.check_periode_availability(-10, 180, Interval::Min1));
    assert!(!m.check_periode_availability(0, 180, Interval::Min1));
    assert!(!m.check_periode_availability(60, 180, Interval::Hour1) );
}

#[test]
fn availability_from_zero_needs_first_candle() {
    let mut m = grid_market(true);
    assert!(m.check_periode_availability(0, 180, Interval::Min1));
    assert!(!m.check_periode_availability(0, 30, Interval::Min1));
}

#[test]
fn refresh_table() {
    assert_eq!(refresh_action(None, None), RefreshAction::Nothing);
    assert_eq!(refresh_action(None, Some(Interval::Min5)), RefreshAction::Spawn(Interval::Min5));
    assert_eq!(refresh_action(Some(Interval::Min5), None), RefreshAction::Cancel);
    assert_eq!(refresh_action(Some(Interval::Min5), Some(Interval::Min5)), RefreshAction::Keep);
    assert_eq!(
        refresh_action(Some(Interval::Min5), Some(Interval::Hour1)),
        RefreshAction::Restart(Interval::Hour1)
    );
}

#[test]
fn cache_age() {
    assert!(cache_is_fresh(10, None));
    assert!(cache_is_fresh(10, Some(11)));
    assert!(!cache_is_fresh(11, Some(11)));
}

#[test]
fn refresh_starting_point() {
    assert_eq!(refresh_since(Some(600), 10_000), 600);
    assert_eq!(refresh_since(None, 100_000), 100_000 - 86_400);
}

#[test]
fn pages_are_cut_at_since() {
    let page = vec![candle(0), candle(60), candle(120)];
    let cut = pkbot::exchange::page_from(&page, 60);
    assert_eq!(cut.iter().map(|c| c.time).collect::<Vec<_>>(), vec![60, 120]);
    assert!(pkbot::exchange::page_from(&page, 121).is_empty());
}
