use vstd::prelude::*;

use crate::error::Error;
use crate::market::{MarketIdentifier, MarketSettings, OHLC};
use crate::store::{StoreMarketDataHandle, has_time, window};

verus! {

/// The markets an exchange offers and those loaded here, each when asked for.
#[derive(Debug, Clone)]
pub struct GetAllMarketResult {
    pub available: Option<Vec<MarketIdentifier>>,
    pub loaded: Option<Vec<MarketIdentifier>>,
}

/// A market's settings and the times of its first and last candles.
#[derive(Debug, Clone, PartialEq, Eq)]
pub struct GetMarketResult {
    pub settings: MarketSettings,
    pub first_ohlc: Option<i64>,
    pub last_ohlc: Option<i64>,
}

/// The (empty) answer about a market's derived data.
#[derive(Debug, Clone, PartialEq, Eq)]
pub struct GetMarketDataResult {}

/// Candles of a market.
#[derive(Debug, Clone, PartialEq, Eq)]
pub struct GetMarketOhlcResult {
    pub data: Vec<OHLC>,
}

/// The summary of a market at one period: its settings and the times of the
/// first and last candles of `tree`.
pub fn market_summary(settings: MarketSettings, tree: &StoreMarketDataHandle) -> (r: GetMarketResult)
    requires
        tree.wf(),
    ensures
        r.settings == settings,
        tree@.len() == 0 ==> r.first_ohlc is None && r.last_ohlc is None,
        tree@.len() > 0 ==> r.first_ohlc == Some(tree@[0].time) && r.last_ohlc == Some(tree@.last().time),
{
    let first_ohlc = match tree.first_ohlc() {
        Some(c) => Some(c.time),
        None => None,
    };
    let last_ohlc = match tree.last_ohlc() {
        Some(c) => Some(c.time),
        None => None,
    };
    GetMarketResult { settings, first_ohlc, last_ohlc }
}

/// The candles from `from` to `to` (by default the last stored time, or 0
/// when there is none): exactly from candle to candle where `exact` is set,
/// else from the nearest stored times inside the window.
pub fn ohlc_query(tree: &StoreMarketDataHandle, from: i64, to: Option<i64>, exact: Option<bool>) -> (r: Result<GetMarketOhlcResult, Error>)
    requires
        tree.wf(),
    ensures
        ({
            let end = match to {
                Some(t) => t,
                None => if tree@.len() > 0 { tree@.last().time } else { 0 },
            };
            let is_exact = match exact {
                Some(e) => e,
                None => false,
            };
            &&& (is_exact ==> (r is Ok <==> has_time(tree@, from) && has_time(tree@, end) && from <= end))
            &&& (!is_exact ==> (r is Ok <==> exists|i: int| 0 <= i < tree@.len() && from <= #[trigger] tree@[i].time <= end))
            &&& (r matches Ok(v) ==> v.data@ == window(tree@, from, end))
            &&& (r matches Err(e) ==> e == Error::NoData)
        }),
{
    let end = match to {
        Some(t) => t,
        None => match tree.last_ohlc() {
            Some(c) => c.time,
            None => 0,
        },
    };
    let is_exact = match exact {
        Some(e) => e,
        None => false,
    };
    let data = if is_exact {
        tree.exact_range(from, end)
    } else {
        tree.close_range(from, end)
    };
    match data {
        Ok(data) => Ok(GetMarketOhlcResult { data }),
        Err(e) => Err(e),
    }
}

} // verus!
