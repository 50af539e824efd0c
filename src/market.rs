use vstd::prelude::*;
use vstd::string::*;

use crate::error::Error;
use crate::text::{split, split_pieces, upper_of, uppercase};

verus! {

/// A sampling period of candles.
#[derive(Debug, Clone, Copy, PartialEq, Eq, Hash, Structural)]
pub enum Interval {
    Min1,
    Min5,
    Min15,
    Min30,
    Hour1,
    Hour4,
    Day1,
    Day7,
    Day15,
}

/// The length of a sampling period in minutes.
pub open spec fn interval_minutes(i: Interval) -> int {
    match i {
        Interval::Min1 => 1,
        Interval::Min5 => 5,
        Interval::Min15 => 15,
        Interval::Min30 => 30,
        Interval::Hour1 => 60,
        Interval::Hour4 => 240,
        Interval::Day1 => 1440,
        Interval::Day7 => 10080,
        Interval::Day15 => 21600,
    }
}

/// The sampling period whose length is `m` minutes, if there is one.
pub open spec fn interval_of_minutes(m: int) -> Option<Interval> {
    if m == 1 {
        Some(Interval::Min1)
    } else if m == 5 {
        Some(Interval::Min5)
    } else if m == 15 {
        Some(Interval::Min15)
    } else if m == 30 {
        Some(Interval::Min30)
    } else if m == 60 {
        Some(Interval::Hour1)
    } else if m == 240 {
        Some(Interval::Hour4)
    } else if m == 1440 {
        Some(Interval::Day1)
    } else if m == 10080 {
        Some(Interval::Day7)
    } else if m == 21600 {
        Some(Interval::Day15)
    } else {
        None
    }
}

impl Interval {
    pub open spec fn secs(self) -> int {
        interval_minutes(self) * 60
    }

    /// The period's length in seconds.
    pub fn as_secs(&self) -> (r: i64)
        ensures
            r == self.secs(),
            r > 0,
    {
        let minutes: i64 = match self {
            Interval::Min1 => 1,
            Interval::Min5 => 5,
            Interval::Min15 => 15,
            Interval::Min30 => 30,
            Interval::Hour1 => 60,
            Interval::Hour4 => 240,
            Interval::Day1 => 1_440,
            Interval::Day7 => 10_080,
            Interval::Day15 => 21_600,
        };
        minutes * 60
    }

    /// The period that lasts `mins` minutes.
    pub fn from_minuts(mins: i64) -> (r: Result<Interval, Error>)
        ensures
            interval_of_minutes(mins as int) is Some ==> r == Ok::<Interval, Error>(
                interval_of_minutes(mins as int).unwrap(),
            ),
            interval_of_minutes(mins as int) is None ==> r == Err::<Interval, Error>(
                Error::InvalidInterval(mins),
            ),
    {
        match mins {
            1 => Ok(Interval::Min1),
            5 => Ok(Interval::Min5),
            15 => Ok(Interval::Min15),
            30 => Ok(Interval::Min30),
            60 => Ok(Interval::Hour1),
            240 => Ok(Interval::Hour4),
            1_440 => Ok(Interval::Day1),
            10_080 => Ok(Interval::Day7),
            21_600 => Ok(Interval::Day15),
            _ => Err(Error::InvalidInterval(mins)),
        }
    }
}


/// A tradable pair on one exchange.
#[derive(Debug, Clone, PartialEq, Eq, Hash)]
pub struct MarketIdentifier {
    pub base: String,
    pub quote: String,
    pub exchange_name: String,
}

impl MarketIdentifier {
    /// `base/quote`.
    pub open spec fn pair_view(&self) -> Seq<char> {
        self.base@ + "/"@ + self.quote@
    }

    /// `exchange_base/quote`: the display form and the market's unique name.
    pub open spec fn uid_view(&self) -> Seq<char> {
        self.exchange_name@ + "_"@ + self.pair_view()
    }

    /// What names the market: exchange, base and quote.
    pub open spec fn key(&self) -> (Seq<char>, Seq<char>, Seq<char>) {
        (self.exchange_name@, self.base@, self.quote@)
    }

    /// A field-for-field copy.
    pub fn duplicate(&self) -> (r: MarketIdentifier)
        ensures
            r == *self,
    {
        MarketIdentifier {
            base: self.base.clone(),
            quote: self.quote.clone(),
            exchange_name: self.exchange_name.clone(),
        }
    }

    /// Reads `exchange/base/quote`; base and quote are upper-cased, and a
    /// missing part is empty.
    pub fn from(path: &str) -> (r: MarketIdentifier)
        ensures
            ({
                let p = split_pieces(path@, '/');
                &&& r.exchange_name@ == p[0]
                &&& r.base@ == (if p.len() >= 2 { upper_of(p[1]) } else { Seq::<char>::empty() })
                &&& r.quote@ == (if p.len() >= 3 { upper_of(p[2]) } else { Seq::<char>::empty() })
            }),
    {
        proof {
            crate::text::lemma_split_len(path@, '/');
            reveal_strlit("");
            assert(""@ =~= Seq::<char>::empty());
        }
        let pieces = split(path, '/');
        let exchange_name = pieces[0].clone();
        let base = if pieces.len() >= 2 {
            uppercase(pieces[1].as_str())
        } else {
            uppercase("")
        };
        let quote = if pieces.len() >= 3 {
            uppercase(pieces[2].as_str())
        } else {
            uppercase("")
        };
        MarketIdentifier { base, quote, exchange_name }
    }

    /// `exchange/base/quote`.
    pub open spec fn path_view(&self) -> Seq<char> {
        self.exchange_name@ + "/"@ + self.base@ + "/"@ + self.quote@
    }

    /// The market written `exchange/base/quote`.
    pub fn path(&self) -> (r: String)
        ensures
            r@ == self.path_view(),
    {
        self.exchange_name.clone().concat("/").concat(self.base.as_str()).concat("/").concat(self.quote.as_str())
    }

    /// The market's unique name, `exchange_base/quote`.
    pub fn uid(&self) -> (r: String)
        ensures
            r@ == self.uid_view(),
    {
        let pair = self.pair_name();
        let r = self.exchange_name.clone().concat("_").concat(pair.as_str());
        proof {
            assert(r@ =~= self.uid_view());
        }
        r
    }

    /// The pair's name, `base/quote`.
    pub fn pair_name(&self) -> (r: String)
        ensures
            r@ == self.pair_view(),
    {
        self.base.clone().concat("/").concat(self.quote.as_str())
    }

    /// The name of the store tree that holds this market's candles at `interval`.
    pub fn data_tree_uid(&self, interval: Interval) -> (r: String)
        ensures
            r@ == self.uid_view() + "_"@ + interval_name(interval),
    {
        let r = self.uid().concat("_").concat(interval.name());
        proof {
            assert(r@ =~= self.uid_view() + "_"@ + interval_name(interval));
        }
        r
    }
}

/// The name under which a sampling period is written.
pub open spec fn interval_name(i: Interval) -> Seq<char> {
    match i {
        Interval::Min1 => "Min1"@,
        Interval::Min5 => "Min5"@,
        Interval::Min15 => "Min15"@,
        Interval::Min30 => "Min30"@,
        Interval::Hour1 => "Hour1"@,
        Interval::Hour4 => "Hour4"@,
        Interval::Day1 => "Day1"@,
        Interval::Day7 => "Day7"@,
        Interval::Day15 => "Day15"@,
    }
}

impl Interval {
    /// The period's written name (`Min1`, ..., `Day15`).
    pub fn name(&self) -> (r: &'static str)
        ensures
            r@ == interval_name(*self),
    {
        match self {
            Interval::Min1 => "Min1",
            Interval::Min5 => "Min5",
            Interval::Min15 => "Min15",
            Interval::Min30 => "Min30",
            Interval::Hour1 => "Hour1",
            Interval::Hour4 => "Hour4",
            Interval::Day1 => "Day1",
            Interval::Day7 => "Day7",
            Interval::Day15 => "Day15",
        }
    }
}

/// Persisted configuration of one market.
#[derive(Debug, Clone, Copy, PartialEq, Eq, Structural)]
pub struct MarketSettings {
    /// The period of the background refresh; `None` means no refresh.
    pub ohlc_refresh_rate: Option<Interval>,
}

impl Default for MarketSettings {
    fn default() -> (r: MarketSettings)
        ensures
            r.ohlc_refresh_rate is None,
    {
        MarketSettings { ohlc_refresh_rate: None }
    }
}

/// One candle. Prices are kept as the decimal text the exchange sent.
#[derive(Debug, Clone, PartialEq, Eq)]
pub struct OHLC {
    pub time: i64,
    pub open: String,
    pub high: String,
    pub low: String,
    pub close: String,
    pub vwap: String,
    pub volume: String,
    pub count: u64,
    /// Set on the earliest candle the exchange ever returned.
    pub first_available: bool,
}

impl OHLC {
    pub fn new(
        time: i64,
        open: String,
        high: String,
        low: String,
        close: String,
        vwap: String,
        volume: String,
        count: u64,
    ) -> (r: OHLC)
        ensures
            r == (OHLC { time, open, high, low, close, vwap, volume, count, first_available: false }),
    {
        OHLC { time, open, high, low, close, vwap, volume, count, first_available: false }
    }

    /// A field-for-field copy.
    pub fn duplicate(&self) -> (r: OHLC)
        ensures
            r == *self,
    {
        OHLC {
            time: self.time,
            open: self.open.clone(),
            high: self.high.clone(),
            low: self.low.clone(),
            close: self.close.clone(),
            vwap: self.vwap.clone(),
            volume: self.volume.clone(),
            count: self.count,
            first_available: self.first_available,
        }
    }
}

/// A run of candles as one exchange request returned them, with derived bounds.
#[derive(Debug, Clone)]
pub struct OHLCChunk {
    pub data: Vec<OHLC>,
    pub begin: i64,
    pub end: i64,
    pub duration: i64,
    pub interval: i64,
}

impl OHLCChunk {
    /// The step between the first two candles, or 0 for a single candle.
    pub open spec fn step_of(data: Seq<OHLC>) -> int {
        if data.len() > 1 {
            data[1].time - data[0].time
        } else {
            0
        }
    }

    /// Whether the derived fields of a chunk over `data` fit in `i64`.
    pub open spec fn bounds_fit(data: Seq<OHLC>) -> bool {
        &&& data.len() > 0
        &&& i64::MIN <= data.last().time - data[0].time <= i64::MAX
        &&& i64::MIN <= Self::step_of(data) <= i64::MAX
        &&& i64::MIN <= data.last().time - data[0].time + Self::step_of(data) <= i64::MAX
    }

    /// Whether a chunk can be made of `data`: it is not empty and its derived
    /// fields fit in `i64`.
    pub fn fits(data: &Vec<OHLC>) -> (r: bool)
        ensures
            r == Self::bounds_fit(data@),
    {
        if data.len() == 0 {
            return false;
        }
        let begin = data[0].time as i128;
        let end = data[data.len() - 1].time as i128;
        let step: i128 = if data.len() > 1 {
            data[1].time as i128 - begin
        } else {
            0
        };
        let min = i64::MIN as i128;
        let max = i64::MAX as i128;
        min <= end - begin && end - begin <= max && min <= step && step <= max && min <= end - begin
            + step && end - begin + step <= max
    }

    pub fn new(data: Vec<OHLC>) -> (r: OHLCChunk)
        requires
            Self::bounds_fit(data@),
        ensures
            r.data@ == data@,
            r.begin == data@[0].time,
            r.end == data@.last().time,
            r.interval == Self::step_of(data@),
            r.duration == r.end - r.begin + r.interval,
    {
        let begin = data[0].time;
        let end = data[data.len() - 1].time;
        let interval = if data.len() > 1 {
            data[1].time - begin
        } else {
            0
        };
        let duration = (end - begin) + interval;
        OHLCChunk { data, begin, end, duration, interval }
    }
}

} // verus!
