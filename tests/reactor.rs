use pkbot::builtin::{
    cat_window, echo_outputs, human_duration, ls_listing, ArgumentInterval, ArgumentTimestamp,
    MarketFilter,
};
use pkbot::error::Error;
use pkbot::interpretor::{ProgramOutput, ProgramStatus};
use pkbot::market::{Interval, MarketIdentifier, OHLC};
use pkbot::reactor::{runtime_events, Reactor, ReactorEvent};
use pkbot::sync::SyncStep;
use pkbot::exchange::OhlcPaging;

fn id(exchange: &str, base: &str, quote: &str) -> MarketIdentifier {
    MarketIdentifier {
        base: base.to_string(),
        quote: quote.to_string(),
        exchange_name: exchange.to_string(),
    }
}

fn text(s: &str) -> ProgramOutput {
    ProgramOutput::Text { message: s.to_string() }
}

#[test]
fn echo_writes_lines_then_success() {
    assert_eq!(
        echo_outputs(vec!["hello".to_string()]),
        vec![text("hello"), ProgramOutput::Exit { message: None, status: ProgramStatus::Success }]
    );
    assert_eq!(echo_outputs(vec![]).len(), 1);
}

#[test]
fn ls_lists_exchange_base_quote() {
    let markets = vec![id("kraken", "XBT", "USD"), id("kraken", "ETH", "EUR")];
    assert_eq!(ls_listing(&markets), vec!["kraken/XBT/USD".to_string(), "kraken/ETH/EUR".to_string()]);
}

#[test]
fn ls_filters() {
    let markets = vec![id("kraken", "XBT", "USD"), id("kraken", "ETH", "EUR"), id("kraken", "XBT", "EUR")];
    let all = MarketFilter::parse(None);
    assert_eq!(all.select("kraken", &markets).len(), 3);
    let slash = MarketFilter::parse(Some("/"));
    assert!(slash.exchange.is_none() && slash.base.is_none() && slash.quote.is_none());
    let f = MarketFilter::parse(Some("kraken/ xbt /*"));
    assert_eq!(f.exchange.as_deref(), Some("kraken"));
    assert_eq!(f.base.as_deref(), Some("XBT"));
    assert_eq!(f.quote, None);
    assert_eq!(f.select("kraken", &markets), vec![markets[0].clone(), markets[2].clone()]);
    assert!(f.select("binance", &markets).is_empty());
    let q = MarketFilter::parse(Some("kraken//eur"));
    assert_eq!(q.select("kraken", &markets), vec![markets[1].clone(), markets[2].clone()]);
}

#[test]
fn cat_arguments() {
    let now: u64 = 1_700_000_000;
    let from = ArgumentTimestamp::new("NOW-1h", now).unwrap();
    assert_eq!(from, ArgumentTimestamp::RelativeToNow { delta: 3600, crtime: now });
    assert_eq!(cat_window(Some(from.timestamp()), None, now as i64), (now as i64 - 3600, now as i64));
    assert_eq!(cat_window(None, Some(5), 9), (0, 5));
    let interval = ArgumentInterval::new("1m").unwrap();
    assert_eq!(interval.normalized, Interval::Min1);
    let absolute = ArgumentTimestamp::new("1996-12-19T16:39:57-08:00", now).unwrap();
    assert_eq!(absolute.timestamp(), 851_042_397);
    assert!(matches!(ArgumentTimestamp::new("yesterday", now), Err(Error::Parsing(..))));
    assert_eq!(ArgumentTimestamp::new("NOW-xx", now), Err(Error::Parsing("NOW-xx".to_string(), 3, 0)));
    assert!(ArgumentTimestamp::validator("NOW-2d").is_ok());
    assert!(ArgumentTimestamp::validator("soon").is_err());
}

#[test]
fn intervals_read_in_any_case() {
    let a = ArgumentInterval::new("4H").unwrap();
    assert_eq!((a.raw.as_str(), a.normalized), ("4h", Interval::Hour4));
    assert_eq!(ArgumentInterval::new("15D").unwrap().normalized, Interval::Day15);
    assert_eq!(ArgumentInterval::new("2m").err(), Some(Error::Parsing("2m".to_string(), 0, 0)));
    assert!(ArgumentInterval::validator("30M").is_ok());
    assert!(ArgumentInterval::validator("3w").is_err());
}

#[test]
fn durations() {
    assert_eq!(human_duration("90s"), Ok(90));
    assert_eq!(human_duration("5M"), Ok(300));
    assert_eq!(human_duration("2h"), Ok(7200));
    assert_eq!(human_duration("1d"), Ok(86_400));
    assert_eq!(human_duration("42"), Ok(42));
    assert_eq!(human_duration("+7"), Ok(7));
    assert_eq!(human_duration(""), Err(Error::ParseInt));
    assert_eq!(human_duration("h"), Err(Error::ParseInt));
    assert_eq!(human_duration("1.5h"), Err(Error::ParseInt));
    assert_eq!(human_duration("18446744073709551615s"), Ok(u64::MAX));
    assert_eq!(human_duration("18446744073709551616"), Err(Error::ParseInt));
    assert_eq!(human_duration("18446744073709551615m"), Err(Error::ParseInt));
}

#[test]
fn supervisor_event_order() {
    let events = runtime_events(7, vec![text("a"), text("b"), text("c")]);
    assert_eq!(
        events,
        vec![
            ReactorEvent::RuntimeCreated { id: 7 },
            ReactorEvent::ProgramOutput { id: 7, content: text("a") },
            ReactorEvent::ProgramOutput { id: 7, content: text("b") },
            ReactorEvent::ProgramOutput { id: 7, content: text("c") },
            ReactorEvent::RuntimeDestroyed { id: 7 },
        ]
    );
}

#[test]
fn listeners_receive_each_event_once() {
    let mut reactor = Reactor::new();
    let a = reactor.event_listener();
    let b = reactor.event_listener();
    assert_eq!((a, b), (0, 1));
    assert_eq!(reactor.broadcast_targets(), vec![a, b]);
    reactor.remove_listener(a);
    assert_eq!(reactor.broadcast_targets(), vec![b]);
    let c = reactor.event_listener();
    assert_eq!(c, 2);
}

#[test]
fn program_ids_are_handed_out_in_order() {
    let mut reactor = Reactor::new();
    let p = reactor.next_program_id();
    let q = reactor.next_program_id();
    assert_eq!((p, q), (0, 1));
    reactor.register_program(p);
    reactor.register_program(q);
    reactor.remove_program(p);
}

fn candle(time: i64) -> OHLC {
    OHLC::new(time, "1".into(), "1".into(), "1".into(), "1".into(), "1".into(), "1".into(), 1)
}

#[test]
fn markets_need_their_exchange() {
    let mut reactor = Reactor::new();
    let m = id("kraken", "XBT", "USD");
    assert_eq!(reactor.get_or_register_market(&m), Err(Error::ExchangeNotFound("kraken".to_string())));
    reactor.register_exchange("kraken".to_string());
    reactor.register_exchange("kraken".to_string());
    assert!(reactor.has_exchange("kraken"));
    assert!(!reactor.has_exchange("binance"));
    assert_eq!(reactor.get_or_register_market(&m), Ok(true));
    assert_eq!(reactor.get_or_register_market(&m), Ok(false));
    let other = id("kraken", "ETH", "USD");
    assert_eq!(reactor.sync_periode(&other, 0, 10, Interval::Min1), Err(Error::NoData));
}

#[test]
fn reactor_sync_flow() {
    let mut reactor = Reactor::new();
    reactor.register_exchange("kraken".to_string());
    let m = id("kraken", "XBT", "USD");
    reactor.get_or_register_market(&m).unwrap();
    let step = reactor.sync_periode(&m, 60, 120, Interval::Min1).unwrap();
    assert_eq!(step, SyncStep::Fetch { since: 60, interval: Interval::Min1 });
    let mut paging = OhlcPaging::new(60);
    paging.feed(vec![candle(60), candle(120)]);
    paging.feed(vec![candle(120)]);
    let chunk = paging.finish().unwrap();
    assert_eq!(reactor.store_chunk(&m, Interval::Min1, chunk), Ok((60, 120)));
    assert_eq!(reactor.sync_periode(&m, 60, 120, Interval::Min1), Ok(SyncStep::Ready { from: 60, to: 120 }));
    let got = reactor.close_range(&m, Interval::Min1, 0, 1000).unwrap();
    assert_eq!(got.iter().map(|c| c.time).collect::<Vec<_>>(), vec![60, 120]);
}

#[test]
fn steps_after_outside_calls() {
    assert_eq!(ArgumentInterval::from_lowered("7d".to_string()).unwrap().normalized, Interval::Day7);
    assert_eq!(
        ArgumentInterval::from_lowered("7D".to_string()).err(),
        Some(Error::Parsing("7D".to_string(), 0, 0))
    );
    assert_eq!(pkbot::builtin::duration_of_lowered(&"3m".to_string()), Ok(180));
    assert_eq!(pkbot::builtin::duration_of_lowered(&"3M".to_string()), Err(Error::ParseInt));
    assert_eq!(MarketFilter::pair_from_normalized("*".to_string()), None);
    assert_eq!(MarketFilter::pair_from_normalized("".to_string()), None);
    assert_eq!(MarketFilter::pair_from_normalized("EUR".to_string()), Some("EUR".to_string()));
    assert_eq!(
        ArgumentTimestamp::from_parsed("x", Some(12)),
        Ok(ArgumentTimestamp::Absolute { date: 12 })
    );
    assert_eq!(
        ArgumentTimestamp::from_parsed("x", None),
        Err(Error::Parsing("x".to_string(), 3, 0))
    );
}
