use vstd::prelude::*;

use crate::market::{Interval, MarketIdentifier, OHLCChunk, OHLC};
use crate::store::{StoreMarketHandle, sorted_by_time};

verus! {

/// Whether the candles `s` cover a request from `from` to `to` at a period of
/// `secs` seconds: the earliest candle at or after `from` is at most one period
/// later (or, for `from == 0`, the earliest candle is the first the exchange
/// ever had), and some candle is at or before `to`.
pub open spec fn periode_available(s: Seq<OHLC>, from: i64, to: i64, secs: int) -> bool {
    &&& if from != 0 {
        exists|i: int| 0 <= i < s.len() && from <= #[trigger] s[i].time <= from + secs
    } else {
        s.len() > 0 && s[0].first_available
    }
    &&& exists|i: int| 0 <= i < s.len() && #[trigger] s[i].time <= to
}

/// What a period synchronisation does next.
#[derive(Debug, Clone, Copy, PartialEq, Eq, Structural)]
pub enum SyncStep {
    /// The store covers the request; the range is `from..to`.
    Ready { from: i64, to: i64 },
    /// Candles must be fetched from the exchange from `since` at `interval`.
    Fetch { since: i64, interval: Interval },
}

/// A market bound to its store; the exchange it pulls from is driven by the caller.
#[derive(Debug, Clone)]
pub struct SyncMarket {
    pub store: StoreMarketHandle,
}

impl SyncMarket {
    pub open spec fn wf(&self) -> bool {
        self.store.wf()
    }

    pub fn new(store: StoreMarketHandle) -> (r: SyncMarket)
        ensures
            r.store == store,
    {
        SyncMarket { store }
    }

    /// The market synchronised.
    pub fn id(&self) -> (r: &MarketIdentifier)
        ensures
            *r == self.store.market(),
    {
        self.store.id()
    }

    /// Whether the stored candles at `interval` cover `from` to `to`.
    pub fn check_periode_availability(&mut self, from: i64, to: i64, interval: Interval) -> (r:
        bool)
        requires
            old(self).wf(),
        ensures
            final(self).wf(),
            final(self).store.market() == old(self).store.market(),
            final(self).store.stored_settings() == old(self).store.stored_settings(),
            forall|i: Interval| #[trigger] final(self).store.tree_view(i) == old(self).store.tree_view(i),
            r == periode_available(old(self).store.tree_view(interval), from, to, interval.secs()),
    {
        let tree = self.store.interval(interval);
        let secs = interval.as_secs();
        let ghost s = tree@;
        if from != 0 {
            match tree.prev_close_to(from) {
                None => {
                    return false;
                },
                Some(close_from) => {
                    if (close_from as i128) - (from as i128) > secs as i128 {
                        proof {
                            assert forall|i: int| 0 <= i < s.len() implies !(from <= #[trigger] s[i].time <= from + secs) by {}
                        }
                        return false;
                    }
                },
            }
        } else {
            match tree.first_ohlc() {
                None => {
                    return false;
                },
                Some(first) => {
                    if !first.first_available {
                        return false;
                    }
                },
            }
        }
        match tree.next_close_to(to) {
            None => false,
            Some(_) => true,
        }
    }

    /// The first step of synchronising `from` to `to` at `interval`: the range
    /// when the store covers it, else the fetch to make.
    pub fn sync_periode(&mut self, from: i64, to: i64, interval: Interval) -> (r: SyncStep)
        requires
            old(self).wf(),
        ensures
            final(self).wf(),
            final(self).store.market() == old(self).store.market(),
            final(self).store.stored_settings() == old(self).store.stored_settings(),
            forall|i: Interval| #[trigger] final(self).store.tree_view(i) == old(self).store.tree_view(i),
            periode_available(old(self).store.tree_view(interval), from, to, interval.secs())
                ==> r == (SyncStep::Ready { from, to }),
            !periode_available(old(self).store.tree_view(interval), from, to, interval.secs())
                ==> r == (SyncStep::Fetch { since: from, interval }),
    {
        if self.check_periode_availability(from, to, interval) {
            SyncStep::Ready { from, to }
        } else {
            SyncStep::Fetch { since: from, interval }
        }
    }

    /// The last step: stores the fetched chunk at `interval` and gives the
    /// range it covers, `begin..end`.
    pub fn store_chunk(&mut self, interval: Interval, chunk: OHLCChunk) -> (r: (i64, i64))
        requires
            old(self).wf(),
        ensures
            final(self).wf(),
            final(self).store.market() == old(self).store.market(),
            final(self).store.stored_settings() == old(self).store.stored_settings(),
            forall|i: Interval| i != interval ==> #[trigger] final(self).store.tree_view(i) == old(self).store.tree_view(i),
            sorted_by_time(final(self).store.tree_view(interval)),
            forall|x: OHLC|
                #![trigger final(self).store.tree_view(interval).contains(x)]
                final(self).store.tree_view(interval).contains(x) <==> crate::store::extended_with(
                    old(self).store.tree_view(interval),
                    chunk.data@,
                    x,
                ),
            r == (chunk.begin, chunk.end),
    {
        let begin = chunk.begin;
        let end = chunk.end;
        self.store.extend(interval, chunk.data);
        (begin, end)
    }
}

/// `s` holds a candle at every `step` seconds from `a` to `b`, and no other.
pub open spec fn is_grid(s: Seq<OHLC>, a: int, b: int, step: int) -> bool {
    &&& s.len() > 0
    &&& s[0].time == a
    &&& s.last().time == b
    &&& forall|k: int| 0 <= k < s.len() - 1 ==> #[trigger] s[k + 1].time == s[k].time + step
}

proof fn lemma_grid_sorted(s: Seq<OHLC>, a: int, b: int, step: int)
    requires
        is_grid(s, a, b, step),
        step > 0,
    ensures
        sorted_by_time(s),
{
    assert forall|i: int, j: int| 0 <= i < j < s.len() implies s[i].time < s[j].time by {
        lemma_grid_increase(s, a, b, step, i, j);
    }
}

proof fn lemma_grid_increase(s: Seq<OHLC>, a: int, b: int, step: int, i: int, j: int)
    requires
        is_grid(s, a, b, step),
        step > 0,
        0 <= i < j < s.len(),
    ensures
        s[i].time < s[j].time,
    decreases j - i,
{
    let k = j - 1;
    assert(s[k + 1].time == s[k].time + step);
    if j - 1 > i {
        lemma_grid_increase(s, a, b, step, i, j - 1);
    }
}

proof fn lemma_grid_hit(s: Seq<OHLC>, a: int, b: int, step: int, t: int, k: int)
    requires
        is_grid(s, a, b, step),
        step > 0,
        0 <= k < s.len(),
        s[k].time < t <= b,
    ensures
        exists|i: int| 0 <= i < s.len() && t <= #[trigger] s[i].time <= t + step,
    decreases s.len() - k,
{
    lemma_grid_sorted(s, a, b, step);
    if k == s.len() - 1 {
        assert(s[k].time == b);
    } else {
        assert(s[k + 1].time == s[k].time + step);
        if s[k + 1].time >= t {
            assert(t <= s[k + 1].time <= t + step);
        } else {
            lemma_grid_hit(s, a, b, step, t, k + 1);
        }
    }
}

/// Availability over a store that holds a candle at every period from `a0` to
/// `b0`: a request from a non-zero `from` is covered exactly when `from` lies
/// between one period before `a0` and `b0`, and `to` is at or after `a0`; a
/// request from zero is covered exactly when the first candle is marked as the
/// exchange's first and `to` is at or after `a0`. In particular every request
/// with `a0 <= from <= to <= b0` is covered.
pub proof fn lemma_grid_availability(s: Seq<OHLC>, a0: int, b0: int, step: int, from: i64, to: i64)
    requires
        is_grid(s, a0, b0, step),
        step > 0,
    ensures
        from != 0 ==> (periode_available(s, from, to, step) <==> (a0 - step <= from <= b0
            && a0 <= to)),
        from == 0 ==> (periode_available(s, from, to, step) <==> (s[0].first_available && a0
            <= to)),
        a0 <= from <= to <= b0 && from != 0 ==> periode_available(s, from, to, step),
{
    lemma_grid_sorted(s, a0, b0, step);
    let n = s.len() - 1;
    assert forall|i: int| 0 <= i < s.len() implies a0 <= #[trigger] s[i].time <= b0 by {
        if i > 0 {
            assert(s[0].time < s[i].time);
        }
        if i < n {
            assert(s[i].time < s[n].time);
        }
    }
    if a0 <= to {
        assert(s[0].time <= to);
    }
    if from != 0 && a0 - step <= from <= b0 {
        if from <= a0 {
            assert(from <= s[0].time <= from + step);
        } else {
            lemma_grid_hit(s, a0, b0, step, from as int, 0);
        }
    }
}

} // verus!
