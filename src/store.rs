use vstd::prelude::*;

use crate::error::Error;
use crate::market::{Interval, MarketIdentifier, MarketSettings, OHLC};

verus! {

/// Candle times increase strictly along `s`.
pub open spec fn sorted_by_time(s: Seq<OHLC>) -> bool {
    forall|i: int, j: int| 0 <= i < j < s.len() ==> s[i].time < s[j].time
}

/// Some candle of `s` is at time `t`.
pub open spec fn has_time(s: Seq<OHLC>, t: i64) -> bool {
    exists|i: int| 0 <= i < s.len() && s[i].time == t
}

/// The candles of `s` whose time lies in `[a, b]`, in order.
pub open spec fn window(s: Seq<OHLC>, a: i64, b: i64) -> Seq<OHLC> {
    s.filter(|c: OHLC| a <= c.time && c.time <= b)
}

/// The candles of one market at one sampling period, ordered by time, with
/// at most one candle per time.
#[derive(Debug, Clone)]
pub struct StoreMarketDataHandle {
    id: MarketIdentifier,
    interval: Interval,
    candles: Vec<OHLC>,
}

impl StoreMarketDataHandle {
    /// The candles in forward order.
    pub closed spec fn view(&self) -> Seq<OHLC> {
        self.candles@
    }

    pub closed spec fn market(&self) -> MarketIdentifier {
        self.id
    }

    pub closed spec fn period(&self) -> Interval {
        self.interval
    }

    /// The sampling period of the candles held.
    pub fn interval(&self) -> (r: Interval)
        ensures
            r == self.period(),
    {
        self.interval
    }

    /// The market whose candles are held.
    pub fn id(&self) -> (r: &MarketIdentifier)
        ensures
            *r == self.market(),
    {
        &self.id
    }

    pub closed spec fn wf(&self) -> bool {
        sorted_by_time(self.candles@)
    }

    /// An empty tree.
    pub fn new(id: MarketIdentifier, interval: Interval) -> (r: StoreMarketDataHandle)
        ensures
            r.wf(),
            r@ == Seq::<OHLC>::empty(),
            r.market() == id,
            r.period() == interval,
    {
        StoreMarketDataHandle { id, interval, candles: Vec::new() }
    }

    /// The number of candles held.
    pub fn len(&self) -> (r: usize)
        ensures
            r == self@.len(),
    {
        self.candles.len()
    }

    /// The index of the first candle at or after `t` (or past the end).
    fn position_from(&self, t: i64) -> (r: usize)
        requires
            self.wf(),
        ensures
            r <= self@.len(),
            forall|i: int| 0 <= i < r ==> self@[i].time < t,
            forall|i: int| r <= i < self@.len() ==> self@[i].time >= t,
    {
        let mut i: usize = 0;
        while i < self.candles.len() && self.candles[i].time < t
            invariant
                self.wf(),
                i <= self@.len(),
                forall|k: int| 0 <= k < i ==> self@[k].time < t,
            decreases self@.len() - i,
        {
            i = i + 1;
        }
        proof {
            if i < self@.len() {
                assert forall|k: int| i <= k < self@.len() implies self@[k].time >= t by {
                    if k > i {
                        assert(self@[i as int].time < self@[k].time);
                    }
                }
            }
        }
        i
    }

    /// The index of the first candle strictly after `t` (or past the end).
    fn position_after(&self, t: i64) -> (r: usize)
        requires
            self.wf(),
        ensures
            r <= self@.len(),
            forall|i: int| 0 <= i < r ==> self@[i].time <= t,
            forall|i: int| r <= i < self@.len() ==> self@[i].time > t,
    {
        let mut i: usize = 0;
        while i < self.candles.len() && self.candles[i].time <= t
            invariant
                self.wf(),
                i <= self@.len(),
                forall|k: int| 0 <= k < i ==> self@[k].time <= t,
            decreases self@.len() - i,
        {
            i = i + 1;
        }
        proof {
            if i < self@.len() {
                assert forall|k: int| i <= k < self@.len() implies self@[k].time > t by {
                    if k > i {
                        assert(self@[i as int].time < self@[k].time);
                    }
                }
            }
        }
        i
    }

    /// The earliest stored time at or after `t`.
    pub fn prev_close_to(&self, t: i64) -> (r: Option<i64>)
        requires
            self.wf(),
        ensures
            r is None <==> forall|i: int| 0 <= i < self@.len() ==> self@[i].time < t,
            r matches Some(x) ==> x >= t && has_time(self@, x) && forall|i: int|
                0 <= i < self@.len() && self@[i].time >= t ==> x <= self@[i].time,
    {
        let p = self.position_from(t);
        if p < self.candles.len() {
            Some(self.candles[p].time)
        } else {
            None
        }
    }

    /// The latest stored time at or before `t`.
    pub fn next_close_to(&self, t: i64) -> (r: Option<i64>)
        requires
            self.wf(),
        ensures
            r is None <==> forall|i: int| 0 <= i < self@.len() ==> self@[i].time > t,
            r matches Some(x) ==> x <= t && has_time(self@, x) && forall|i: int|
                0 <= i < self@.len() && self@[i].time <= t ==> self@[i].time <= x,
    {
        let q = self.position_after(t);
        if q > 0 {
            Some(self.candles[q - 1].time)
        } else {
            None
        }
    }

    /// The candle stored at time `t`.
    pub fn ohlc(&self, t: i64) -> (r: Option<OHLC>)
        requires
            self.wf(),
        ensures
            r is None <==> !has_time(self@, t),
            r matches Some(c) ==> c.time == t && self@.contains(c),
    {
        let p = self.position_from(t);
        if p < self.candles.len() && self.candles[p].time == t {
            Some(self.candles[p].duplicate())
        } else {
            None
        }
    }

    /// The latest candle strictly before `t`.
    pub fn prev_ohlc(&self, t: i64) -> (r: Option<OHLC>)
        requires
            self.wf(),
        ensures
            r is None <==> forall|i: int| 0 <= i < self@.len() ==> self@[i].time >= t,
            r matches Some(c) ==> c.time < t && self@.contains(c) && forall|i: int|
                0 <= i < self@.len() && self@[i].time < t ==> self@[i].time <= c.time,
    {
        let p = self.position_from(t);
        if p > 0 {
            Some(self.candles[p - 1].duplicate())
        } else {
            None
        }
    }

    /// The earliest candle strictly after `t`.
    pub fn next_ohlc(&self, t: i64) -> (r: Option<OHLC>)
        requires
            self.wf(),
        ensures
            r is None <==> forall|i: int| 0 <= i < self@.len() ==> self@[i].time <= t,
            r matches Some(c) ==> c.time > t && self@.contains(c) && forall|i: int|
                0 <= i < self@.len() && self@[i].time > t ==> c.time <= self@[i].time,
    {
        let q = self.position_after(t);
        if q < self.candles.len() {
            Some(self.candles[q].duplicate())
        } else {
            None
        }
    }

    /// The earliest candle.
    pub fn first_ohlc(&self) -> (r: Option<OHLC>)
        requires
            self.wf(),
        ensures
            r is None <==> self@.len() == 0,
            r matches Some(c) ==> c == self@[0] && forall|i: int|
                0 <= i < self@.len() ==> c.time <= #[trigger] self@[i].time,
    {
        if self.candles.len() > 0 {
            proof {
                assert forall|i: int| 0 <= i < self@.len() implies self@[0].time <= #[trigger] self@[i].time by {
                    if i > 0 {
                        assert(self@[0].time < self@[i].time);
                    }
                }
            }
            Some(self.candles[0].duplicate())
        } else {
            None
        }
    }

    /// The latest candle.
    pub fn last_ohlc(&self) -> (r: Option<OHLC>)
        requires
            self.wf(),
        ensures
            r is None <==> self@.len() == 0,
            r matches Some(c) ==> c == self@.last() && forall|i: int|
                0 <= i < self@.len() ==> #[trigger] self@[i].time <= c.time,
    {
        if self.candles.len() > 0 {
            proof {
                let n = self@.len() - 1;
                assert forall|i: int| 0 <= i < self@.len() implies #[trigger] self@[i].time <= self@[n].time by {
                    if i < n {
                        assert(self@[i].time < self@[n].time);
                    }
                }
            }
            Some(self.candles[self.candles.len() - 1].duplicate())
        } else {
            None
        }
    }

    /// A copy of the tree.
    pub fn duplicate(&self) -> (r: StoreMarketDataHandle)
        requires
            self.wf(),
        ensures
            r.wf(),
            r@ == self@,
            r.market() == self.market(),
            r.period() == self.period(),
    {
        StoreMarketDataHandle {
            id: self.id.duplicate(),
            interval: self.interval,
            candles: self.candles(),
        }
    }

    /// The candles in forward order.
    pub fn candles(&self) -> (r: Vec<OHLC>)
        requires
            self.wf(),
        ensures
            r@ == self@,
            sorted_by_time(r@),
    {
        let mut r: Vec<OHLC> = Vec::new();
        let mut i: usize = 0;
        while i < self.candles.len()
            invariant
                i <= self@.len(),
                r@ == self@.subrange(0, i as int),
            decreases self@.len() - i,
        {
            r.push(self.candles[i].duplicate());
            i = i + 1;
            proof {
                assert(r@ =~= self@.subrange(0, i as int));
            }
        }
        proof {
            assert(r@ =~= self@);
        }
        r
    }

    /// The candles in `[a, b]`, by a forward walk over the tree.
    fn collect_window(&self, a: i64, b: i64) -> (r: Vec<OHLC>)
        requires
            self.wf(),
        ensures
            r@ == window(self@, a, b),
    {
        let mut r: Vec<OHLC> = Vec::new();
        let mut i: usize = 0;
        while i < self.candles.len()
            invariant
                i <= self@.len(),
                r@ == window(self@.subrange(0, i as int), a, b),
            decreases self@.len() - i,
        {
            proof {
                let next = self@.subrange(0, i + 1);
                assert(next.drop_last() =~= self@.subrange(0, i as int));
                assert(next.last() == self@[i as int]);
            }
            let t = self.candles[i].time;
            if a <= t && t <= b {
                r.push(self.candles[i].duplicate());
            }
            proof {
                let next = self@.subrange(0, i + 1);
                let f = |c: OHLC| a <= c.time && c.time <= b;
                assert(next.len() > 0);
                reveal(Seq::filter);
                assert(next.filter(f) == if f(next.last()) {
                    next.drop_last().filter(f).push(next.last())
                } else {
                    next.drop_last().filter(f)
                });
            }
            i = i + 1;
        }
        proof {
            assert(self@.subrange(0, self@.len() as int) =~= self@);
        }
        r
    }

    /// The candles from time `a` to time `b` inclusive, walking forward from
    /// the candle at `a` until the one at `b`.
    pub fn exact_range(&self, a: i64, b: i64) -> (r: Result<Vec<OHLC>, Error>)
        requires
            self.wf(),
        ensures
            r is Ok <==> has_time(self@, a) && has_time(self@, b) && a <= b,
            r matches Ok(v) ==> v@ == window(self@, a, b),
            r matches Err(e) ==> e == Error::NoData,
    {
        let pa = self.position_from(a);
        let pb = self.position_from(b);
        if pa < self.candles.len() && self.candles[pa].time == a && pb < self.candles.len()
            && self.candles[pb].time == b && a <= b {
            Ok(self.collect_window(a, b))
        } else {
            proof {
                if has_time(self@, a) {
                    let k = choose|k: int| 0 <= k < self@.len() && self@[k].time == a;
                    assert(k >= pa);
                    if k > pa {
                        assert(self@[pa as int].time < self@[k].time);
                    }
                }
                if has_time(self@, b) {
                    let k = choose|k: int| 0 <= k < self@.len() && self@[k].time == b;
                    assert(k >= pb);
                    if k > pb {
                        assert(self@[pb as int].time < self@[k].time);
                    }
                }
            }
            Err(Error::NoData)
        }
    }

    /// The candles between the first stored time at or after `a` and the last
    /// stored time at or before `b`, inclusive.
    pub fn close_range(&self, a: i64, b: i64) -> (r: Result<Vec<OHLC>, Error>)
        requires
            self.wf(),
        ensures
            r is Ok <==> exists|i: int| 0 <= i < self@.len() && a <= #[trigger] self@[i].time <= b,
            r matches Ok(v) ==> v@ == window(self@, a, b),
            r matches Err(e) ==> e == Error::NoData,
    {
        let start = self.prev_close_to(a);
        let end = self.next_close_to(b);
        match (start, end) {
            (Some(x), Some(y)) => {
                if x <= y {
                    proof {
                        let k = choose|k: int| 0 <= k < self@.len() && self@[k].time == x;
                        assert(a <= self@[k].time <= b);
                    }
                    Ok(self.collect_window(a, b))
                } else {
                    proof {
                        assert forall|i: int| 0 <= i < self@.len() implies !(a <= #[trigger] self@[i].time
                            <= b) by {
                            if a <= self@[i].time <= b {
                                assert(x <= self@[i].time);
                                assert(self@[i].time <= y);
                            }
                        }
                    }
                    Err(Error::NoData)
                }
            },
            _ => Err(Error::NoData),
        }
    }

    /// Stores `c`, replacing a candle at the same time.
    pub fn insert(&mut self, c: OHLC)
        requires
            old(self).wf(),
        ensures
            final(self).wf(),
            final(self).market() == old(self).market(),
            final(self).period() == old(self).period(),
            forall|x: OHLC|
                #![trigger final(self)@.contains(x)]
                final(self)@.contains(x) <==> (x == c || (old(self)@.contains(x) && x.time
                    != c.time)),
    {
        let ghost before = self@;
        let t = c.time;
        let p = self.position_from(t);
        if p < self.candles.len() && self.candles[p].time == t {
            self.candles.set(p, c);
            proof {
                let after = self@;
                assert(after =~= before.update(p as int, c));
                assert forall|i: int, j: int| 0 <= i < j < after.len() implies after[i].time
                    < after[j].time by {
                    assert(before[i].time < before[j].time);
                }
                assert forall|x: OHLC| after.contains(x) <==> (x == c || (before.contains(x)
                    && x.time != t)) by {
                    if after.contains(x) && x != c {
                        let k = choose|k: int| 0 <= k < after.len() && after[k] == x;
                        assert(k != p);
                        assert(before[k] == x);
                        if k < p {
                            assert(before[k].time < before[p as int].time);
                        } else {
                            assert(before[p as int].time < before[k].time);
                        }
                    }
                    if x == c {
                        assert(after[p as int] == x);
                    }
                    if before.contains(x) && x.time != t {
                        let k = choose|k: int| 0 <= k < before.len() && before[k] == x;
                        assert(k != p);
                        assert(after[k] == x);
                    }
                }
            }
        } else {
            self.candles.insert(p, c);
            proof {
                let after = self@;
                assert(after =~= before.insert(p as int, c));
                assert forall|i: int, j: int| 0 <= i < j < after.len() implies after[i].time
                    < after[j].time by {
                    if j < p {
                        assert(before[i].time < before[j].time);
                    } else if j == p {
                    } else if i < p {
                        assert(before[i].time < t);
                        assert(before[j - 1].time >= t);
                        if p < before.len() {
                            assert(before[p as int].time != t);
                            if j - 1 > p {
                                assert(before[p as int].time < before[j - 1].time);
                            }
                        }
                    } else if i == p {
                        assert(before[j - 1].time >= t);
                        assert(before[p as int].time != t);
                        if j - 1 > p {
                            assert(before[p as int].time < before[j - 1].time);
                        }
                    } else {
                        assert(before[i - 1].time < before[j - 1].time);
                    }
                }
                assert forall|x: OHLC| after.contains(x) <==> (x == c || (before.contains(x)
                    && x.time != t)) by {
                    if after.contains(x) && x != c {
                        let k = choose|k: int| 0 <= k < after.len() && after[k] == x;
                        if k < p {
                            assert(before[k] == x);
                            assert(before[k].time < t);
                        } else {
                            assert(k > p);
                            assert(before[k - 1] == x);
                            assert(before[k - 1].time >= t);
                            assert(before[p as int].time != t);
                            if k - 1 > p {
                                assert(before[p as int].time < before[k - 1].time);
                            }
                        }
                    }
                    if x == c {
                        assert(after[p as int] == x);
                    }
                    if before.contains(x) && x.time != t {
                        let k = choose|k: int| 0 <= k < before.len() && before[k] == x;
                        if k < p {
                            assert(after[k] == x);
                        } else {
                            assert(after[k + 1] == x);
                        }
                    }
                }
            }
        }
    }

    /// Stores each candle of `chunk` in order; a later candle replaces an
    /// earlier one at the same time.
    pub fn extend(&mut self, chunk: Vec<OHLC>)
        requires
            old(self).wf(),
        ensures
            final(self).wf(),
            final(self).market() == old(self).market(),
            final(self).period() == old(self).period(),
            forall|x: OHLC|
                #![trigger final(self)@.contains(x)]
                final(self)@.contains(x) <==> (extended_with(old(self)@, chunk@, x)),
    {
        let ghost before = self@;
        let mut i: usize = 0;
        while i < chunk.len()
            invariant
                self.wf(),
                self.market() == old(self).market(),
                self.period() == old(self).period(),
                before == old(self)@,
                i <= chunk@.len(),
                forall|x: OHLC|
                    #![trigger self@.contains(x)]
                    self@.contains(x) <==> extended_with(before, chunk@.subrange(0, i as int), x),
            decreases chunk@.len() - i,
        {
            let ghost mid = self@;
            self.insert(chunk[i].duplicate());
            proof {
                let pre = chunk@.subrange(0, i as int);
                let post = chunk@.subrange(0, i + 1);
                assert(post =~= pre.push(chunk@[i as int]));
                assert forall|x: OHLC| #![trigger self@.contains(x)]
                    self@.contains(x) <==> extended_with(before, post, x) by {
                    lemma_extended_with_push(before, pre, chunk@[i as int], x);
                }
            }
            i = i + 1;
        }
        proof {
            assert(chunk@.subrange(0, chunk@.len() as int) =~= chunk@);
        }
    }
}


/// What reading a settings record gives, and what is stored afterwards: the
/// record where one was written, else the default, which is then written.
pub open spec fn read_settings(stored: Option<MarketSettings>) -> (MarketSettings, Option<MarketSettings>) {
    match stored {
        Some(s) => (s, Some(s)),
        None => (MarketSettings { ohlc_refresh_rate: None }, Some(MarketSettings { ohlc_refresh_rate: None })),
    }
}

/// A settings record read back after it was written is the record written;
/// the first read of a market with no record gives the default (no background
/// refresh) and stores it, so that a second read gives it again.
pub proof fn lemma_settings_round_trip(x: MarketSettings)
    ensures
        read_settings(Some(x)).0 == x,
        read_settings(None).0.ohlc_refresh_rate is None,
        read_settings(None).1 == Some(read_settings(None).0),
        read_settings(read_settings(None).1).0 == read_settings(None).0,
{
}

/// The candle trees and the settings record of one market.
#[derive(Debug, Clone)]
pub struct StoreMarketHandle {
    id: MarketIdentifier,
    trees: Vec<StoreMarketDataHandle>,
    settings: Option<MarketSettings>,
}

impl StoreMarketHandle {
    pub closed spec fn market(&self) -> MarketIdentifier {
        self.id
    }

    /// The settings record as stored, if one was written.
    pub closed spec fn stored_settings(&self) -> Option<MarketSettings> {
        self.settings
    }

    /// Whether a tree was opened for `i`.
    pub closed spec fn has_tree(&self, i: Interval) -> bool {
        exists|k: int| 0 <= k < self.trees.len() && self.trees[k].period() == i
    }

    /// The candles at period `i` (none where no tree was opened).
    pub closed spec fn tree_view(&self, i: Interval) -> Seq<OHLC> {
        if self.has_tree(i) {
            let k = choose|k: int| 0 <= k < self.trees.len() && self.trees[k].period() == i;
            self.trees[k]@
        } else {
            Seq::empty()
        }
    }

    pub closed spec fn wf(&self) -> bool {
        &&& forall|k: int| 0 <= k < self.trees.len() ==> (#[trigger] self.trees[k]).wf()
            && self.trees[k].market() == self.id
        &&& forall|k: int, l: int|
            0 <= k < l < self.trees.len() ==> (#[trigger] self.trees[k]).period() != (
            #[trigger] self.trees[l]).period()
    }

    pub open spec fn all_sorted(&self) -> bool {
        forall|i: Interval| sorted_by_time(#[trigger] self.tree_view(i))
    }

    /// A market with no settings record and no trees.
    pub fn new(id: MarketIdentifier) -> (r: StoreMarketHandle)
        ensures
            r.wf(),
            r.market() == id,
            r.stored_settings() is None,
            forall|i: Interval| #[trigger] r.tree_view(i) == Seq::<OHLC>::empty(),
    {
        StoreMarketHandle { id, trees: Vec::new(), settings: None }
    }

    /// The market whose data is held.
    pub fn id(&self) -> (r: &MarketIdentifier)
        ensures
            *r == self.market(),
    {
        &self.id
    }

    /// The settings record; where none was written, the default is written
    /// and returned.
    pub fn settings(&mut self) -> (r: MarketSettings)
        requires
            old(self).wf(),
        ensures
            final(self).wf(),
            final(self).market() == old(self).market(),
            forall|i: Interval| #[trigger] final(self).tree_view(i) == old(self).tree_view(i),
            (r, final(self).stored_settings()) == read_settings(old(self).stored_settings()),
    {
        match self.settings {
            Some(s) => s,
            None => {
                let s = MarketSettings::default();
                self.set_settings(&s);
                s
            },
        }
    }

    /// Writes the settings record.
    pub fn set_settings(&mut self, settings: &MarketSettings)
        requires
            old(self).wf(),
        ensures
            final(self).wf(),
            final(self).market() == old(self).market(),
            forall|i: Interval| #[trigger] final(self).tree_view(i) == old(self).tree_view(i),
            final(self).stored_settings() == Some(*settings),
    {
        self.settings = Some(*settings);
    }

    fn find_tree(&self, interval: Interval) -> (r: Option<usize>)
        ensures
            r matches Some(k) ==> k < self.trees.len() && self.trees[k as int].period()
                == interval,
            r is None ==> !self.has_tree(interval),
    {
        let mut k: usize = 0;
        while k < self.trees.len()
            invariant
                k <= self.trees.len(),
                forall|j: int| 0 <= j < k ==> self.trees[j].period() != interval,
            decreases self.trees.len() - k,
        {
            if self.trees[k].interval() == interval {
                return Some(k);
            }
            k = k + 1;
        }
        None
    }

    proof fn lemma_tree_view(&self, i: Interval, k: int)
        requires
            self.wf(),
            0 <= k < self.trees.len(),
            self.trees[k].period() == i,
        ensures
            self.has_tree(i),
            self.tree_view(i) == self.trees[k]@,
    {
        let j = choose|j: int| 0 <= j < self.trees.len() && self.trees[j].period() == i;
        if j != k {
            if j < k {
                assert(self.trees[j].period() != self.trees[k].period());
            } else {
                assert(self.trees[k].period() != self.trees[j].period());
            }
        }
    }

    /// The tree at period `interval`, opened empty where it was not.
    pub fn interval(&mut self, interval: Interval) -> (r: StoreMarketDataHandle)
        requires
            old(self).wf(),
        ensures
            final(self).wf(),
            final(self).market() == old(self).market(),
            final(self).stored_settings() == old(self).stored_settings(),
            forall|i: Interval| #[trigger] final(self).tree_view(i) == old(self).tree_view(i),
            final(self).has_tree(interval),
            r.wf(),
            r@ == old(self).tree_view(interval),
            r.market() == old(self).market(),
            r.period() == interval,
    {
        let k = match self.find_tree(interval) {
            Some(k) => k,
            None => {
                let ghost before = *self;
                self.trees.push(StoreMarketDataHandle::new(self.id.duplicate(), interval));
                proof {
                    let n = self.trees.len() - 1;
                    assert(self.trees[n].wf());
                    assert forall|k: int| 0 <= k < self.trees.len() implies (#[trigger] self.trees[k]).wf()
                        && self.trees[k].market() == self.id by {
                        if k < n {
                            assert(self.trees[k] == before.trees[k]);
                        }
                    }
                    assert forall|k: int, l: int|
                        0 <= k < l < self.trees.len() implies (#[trigger] self.trees[k]).period() != (
                        #[trigger] self.trees[l]).period() by {
                        assert(self.trees[k] == before.trees[k]);
                        if l < n {
                            assert(self.trees[l] == before.trees[l]);
                        }
                    }
                }
                proof {
                    let n = self.trees.len() - 1;
                    assert forall|i: Interval| #[trigger] self.tree_view(i) == before.tree_view(i) by {
                        if i == interval {
                            self.lemma_tree_view(i, n);
                        } else if before.has_tree(i) {
                            let j = choose|j: int| 0 <= j < before.trees.len() && before.trees[j].period() == i;
                            before.lemma_tree_view(i, j);
                            self.lemma_tree_view(i, j);
                        } else {
                            assert(!self.has_tree(i));
                        }
                    }
                }
                self.trees.len() - 1
            },
        };
        proof {
            self.lemma_tree_view(interval, k as int);
        }
        self.trees[k].duplicate()
    }

    /// Stores the candles of `chunk` in order into the tree at `interval`.
    pub fn extend(&mut self, interval: Interval, chunk: Vec<OHLC>)
        requires
            old(self).wf(),
        ensures
            final(self).wf(),
            final(self).market() == old(self).market(),
            final(self).stored_settings() == old(self).stored_settings(),
            forall|i: Interval| i != interval ==> #[trigger] final(self).tree_view(i) == old(self).tree_view(i),
            sorted_by_time(final(self).tree_view(interval)),
            forall|x: OHLC|
                #![trigger final(self).tree_view(interval).contains(x)]
                final(self).tree_view(interval).contains(x) <==> extended_with(
                    old(self).tree_view(interval),
                    chunk@,
                    x,
                ),
    {
        let _ = self.interval(interval);
        let ghost before = *self;
        let k = match self.find_tree(interval) {
            Some(k) => k,
            None => 0,
        };
        proof {
            before.lemma_tree_view(interval, k as int);
        }
        let mut tree = self.trees.remove(k);
        tree.extend(chunk);
        self.trees.insert(k, tree);
        proof {
            assert forall|j: int| 0 <= j < self.trees.len() && j != k implies self.trees[j] == before.trees[j] by {}
            assert forall|j: int| 0 <= j < self.trees.len() implies self.trees[j].period() == before.trees[j].period() by {}
            self.lemma_tree_view(interval, k as int);
            assert forall|i: Interval| i != interval implies #[trigger] self.tree_view(i) == old(self).tree_view(i) by {
                assert(before.tree_view(i) == old(self).tree_view(i));
                if before.has_tree(i) {
                    let j = choose|j: int| 0 <= j < before.trees.len() && before.trees[j].period() == i;
                    before.lemma_tree_view(i, j);
                    self.lemma_tree_view(i, j);
                } else {
                    assert(!self.has_tree(i));
                }
            }
        }
    }
}

/// `x` is held after storing the candles of `chunk` in order over the
/// candles `s`: it is the last candle of `chunk` at its time, or it is in `s`
/// and no candle of `chunk` has its time.
pub open spec fn extended_with(s: Seq<OHLC>, chunk: Seq<OHLC>, x: OHLC) -> bool {
    ||| (exists|i: int| 0 <= i < chunk.len() && chunk[i] == x && forall|j: int| i < j < chunk.len() ==> chunk[j].time != x.time)
    ||| (s.contains(x) && forall|j: int| 0 <= j < chunk.len() ==> chunk[j].time != x.time)
}

proof fn lemma_last_at_time(chunk: Seq<OHLC>, t: i64, j: int)
    requires
        0 <= j < chunk.len(),
        chunk[j].time == t,
    ensures
        exists|i: int| 0 <= i < chunk.len() && chunk[i].time == t && forall|k: int|
            i < k < chunk.len() ==> chunk[k].time != t,
    decreases chunk.len() - j,
{
    if exists|k: int| j < k < chunk.len() && chunk[k].time == t {
        let k = choose|k: int| j < k < chunk.len() && chunk[k].time == t;
        lemma_last_at_time(chunk, t, k);
    } else {
        assert forall|k: int| j < k < chunk.len() implies chunk[k].time != t by {}
    }
}

/// Storing a chunk over the candles `s` leaves a candle at exactly the times
/// held before and the times of the chunk: the stored times are their union.
pub proof fn lemma_extend_times(s: Seq<OHLC>, chunk: Seq<OHLC>, after: Seq<OHLC>)
    requires
        forall|x: OHLC| #[trigger] after.contains(x) <==> extended_with(s, chunk, x),
    ensures
        forall|t: i64| has_time(after, t) <==> (has_time(s, t) || has_time(chunk, t)),
{
    assert forall|t: i64| has_time(after, t) <==> (has_time(s, t) || has_time(chunk, t)) by {
        if has_time(after, t) {
            let i = choose|i: int| 0 <= i < after.len() && #[trigger] after[i].time == t;
            let x = after[i];
            assert(after.contains(x));
            if exists|j: int| 0 <= j < chunk.len() && chunk[j] == x && forall|k: int| j < k < chunk.len() ==> chunk[k].time != x.time {
                let j = choose|j: int| 0 <= j < chunk.len() && chunk[j] == x && forall|k: int| j < k < chunk.len() ==> chunk[k].time != x.time;
                assert(chunk[j].time == t);
            } else {
                let j = choose|j: int| 0 <= j < s.len() && s[j] == x;
                assert(s[j].time == t);
            }
        }
        if has_time(chunk, t) {
            let j = choose|j: int| 0 <= j < chunk.len() && #[trigger] chunk[j].time == t;
            lemma_last_at_time(chunk, t, j);
            let i = choose|i: int| 0 <= i < chunk.len() && chunk[i].time == t && forall|k: int|
                i < k < chunk.len() ==> chunk[k].time != t;
            assert(extended_with(s, chunk, chunk[i]));
            assert(after.contains(chunk[i]));
            let m = choose|m: int| 0 <= m < after.len() && after[m] == chunk[i];
            assert(after[m].time == t);
        } else if has_time(s, t) {
            let j = choose|j: int| 0 <= j < s.len() && #[trigger] s[j].time == t;
            assert(s.contains(s[j]));
            assert forall|k: int| 0 <= k < chunk.len() implies chunk[k].time != s[j].time by {
                if chunk[k].time == t {
                    assert(has_time(chunk, t));
                }
            }
            assert(extended_with(s, chunk, s[j]));
            assert(after.contains(s[j]));
            let m = choose|m: int| 0 <= m < after.len() && after[m] == s[j];
            assert(after[m].time == t);
        }
    }
}

proof fn lemma_extended_with_push(s: Seq<OHLC>, pre: Seq<OHLC>, c: OHLC, x: OHLC)
    ensures
        extended_with(s, pre.push(c), x) <==> (x == c || (extended_with(s, pre, x) && x.time
            != c.time)),
{
    let post = pre.push(c);
    if x == c {
        assert(post[pre.len() as int] == x);
    }
    if extended_with(s, pre, x) && x.time != c.time {
        if exists|i: int| 0 <= i < pre.len() && pre[i] == x && forall|j: int| i < j < pre.len() ==> pre[j].time != x.time {
            let i = choose|i: int| 0 <= i < pre.len() && pre[i] == x && forall|j: int| i < j < pre.len() ==> pre[j].time != x.time;
            assert(post[i] == x);
            assert forall|j: int| i < j < post.len() implies post[j].time != x.time by {
                if j < pre.len() {
                    assert(post[j] == pre[j]);
                }
            }
        } else {
            assert forall|j: int| 0 <= j < post.len() implies post[j].time != x.time by {
                if j < pre.len() {
                    assert(post[j] == pre[j]);
                }
            }
        }
    }
    if extended_with(s, post, x) && x != c {
        assert(post[pre.len() as int] == c);
        if exists|i: int| 0 <= i < post.len() && post[i] == x && forall|j: int| i < j < post.len() ==> post[j].time != x.time {
            let i = choose|i: int| 0 <= i < post.len() && post[i] == x && forall|j: int| i < j < post.len() ==> post[j].time != x.time;
            assert(i < pre.len());
            assert(pre[i] == x);
            assert(x.time != c.time);
            assert forall|j: int| i < j < pre.len() implies pre[j].time != x.time by {
                assert(post[j] == pre[j]);
            }
        } else {
            assert(x.time != c.time);
            assert forall|j: int| 0 <= j < pre.len() implies pre[j].time != x.time by {
                assert(post[j] == pre[j]);
            }
        }
    }
}

/// The unsigned value of the big-endian bytes `b`.
pub open spec fn be_value(b: Seq<u8>) -> int
    decreases b.len(),
{
    if b.len() == 0 {
        0
    } else {
        be_value(b.drop_last()) * 256 + b.last() as int
    }
}

/// `256` to the power `k`.
pub open spec fn pow256(k: nat) -> int
    decreases k,
{
    if k == 0 {
        1
    } else {
        pow256((k - 1) as nat) * 256
    }
}

/// The candle time a store key of eight big-endian bytes holds (two's
/// complement).
pub open spec fn key_time_of(b: Seq<u8>) -> int {
    if be_value(b) < 0x8000_0000_0000_0000 {
        be_value(b)
    } else {
        be_value(b) - 0x1_0000_0000_0000_0000
    }
}

/// Reads the candle time from a store key: eight big-endian bytes.
pub fn key_time(b: &[u8]) -> (r: i64)
    requires
        b@.len() == 8,
    ensures
        r == key_time_of(b@),
{
    let mut acc: u64 = 0;
    let mut i: usize = 0;
    proof {
        reveal_with_fuel(pow256, 9);
        assert(pow256(8) == 0x1_0000_0000_0000_0000);
    }
    while i < 8
        invariant
            b@.len() == 8,
            i <= 8,
            acc as int == be_value(b@.subrange(0, i as int)),
            0 <= acc < pow256(i as nat),
            pow256(i as nat) * pow256((8 - i) as nat) == 0x1_0000_0000_0000_0000,
        decreases 8 - i,
    {
        let ghost prefix = b@.subrange(0, i as int);
        let ghost next = b@.subrange(0, i + 1);
        proof {
            assert(next.drop_last() =~= prefix);
            assert(next.last() == b@[i as int]);
            let p = pow256(i as nat);
            let q = pow256((8 - i - 1) as nat);
            assert(pow256((8 - i) as nat) == q * 256);
            assert(pow256((i + 1) as nat) == p * 256);
            assert(p * (q * 256) == 0x1_0000_0000_0000_0000);
            assert(pow256((i + 1) as nat) * q == 0x1_0000_0000_0000_0000) by (nonlinear_arith)
                requires
                    pow256((i + 1) as nat) == p * 256,
                    p * (q * 256) == 0x1_0000_0000_0000_0000,
            ;
            assert(q >= 1) by {
                lemma_pow256_pos((8 - i - 1) as nat);
            }
            assert(acc as int * 256 + 255 < pow256((i + 1) as nat)) by (nonlinear_arith)
                requires
                    acc < p,
                    pow256((i + 1) as nat) == p * 256,
            ;
            assert(pow256((i + 1) as nat) <= 0x1_0000_0000_0000_0000) by (nonlinear_arith)
                requires
                    pow256((i + 1) as nat) * q == 0x1_0000_0000_0000_0000,
                    q >= 1,
                    pow256((i + 1) as nat) >= 0,
            ;
        }
        acc = acc * 256 + b[i] as u64;
        i = i + 1;
    }
    proof {
        assert(b@.subrange(0, 8) =~= b@);
    }
    if acc < 0x8000_0000_0000_0000u64 {
        acc as i64
    } else {
        ((acc - 0x8000_0000_0000_0000u64) as i64) + i64::MIN
    }
}

proof fn lemma_pow256_pos(k: nat)
    ensures
        pow256(k) >= 1,
    decreases k,
{
    if k > 0 {
        lemma_pow256_pos((k - 1) as nat);
    }
}

} // verus!
