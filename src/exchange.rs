use vstd::prelude::*;

use crate::market::{Interval, OHLCChunk, OHLC};

verus! {

/// `c` marked as the earliest candle the exchange has.
pub open spec fn as_first(c: OHLC) -> OHLC {
    OHLC { first_available: true, ..c }
}

/// The candles of a paged fetch that began at `origin`, given all that the
/// exchange returned in order: a fetch from zero marks its first candle.
pub open spec fn paged(origin: i64, received: Seq<OHLC>) -> Seq<OHLC> {
    if origin == 0 && received.len() > 0 {
        received.update(0, as_first(received[0]))
    } else {
        received
    }
}

/// The decisions of a paged candle fetch: request from `since`; after a page
/// of more than one candle, request again from the last candle's time; stop
/// after a page of at most one candle.
pub struct OhlcPaging {
    origin: i64,
    since: i64,
    data: Vec<OHLC>,
    done: bool,
    received: Ghost<Seq<OHLC>>,
}

impl OhlcPaging {
    /// Where the fetch began.
    pub closed spec fn origin(&self) -> i64 {
        self.origin
    }

    /// Where the next request starts.
    pub closed spec fn since(&self) -> i64 {
        self.since
    }

    /// Whether the fetch is over.
    pub closed spec fn is_done(&self) -> bool {
        self.done
    }

    /// Every candle the exchange returned so far, in order.
    pub closed spec fn received(&self) -> Seq<OHLC> {
        self.received@
    }

    /// The candles gathered so far.
    pub closed spec fn view(&self) -> Seq<OHLC> {
        self.data@
    }

    pub closed spec fn wf(&self) -> bool {
        self.data@ == paged(self.origin, self.received@)
    }

    /// A fetch that starts at `since`.
    pub fn new(since: i64) -> (r: OhlcPaging)
        ensures
            r.wf(),
            r.origin() == since,
            r.since() == since,
            !r.is_done(),
            r.received() == Seq::<OHLC>::empty(),
    {
        OhlcPaging { origin: since, since, data: Vec::new(), done: false, received: Ghost(Seq::empty()) }
    }

    /// The `since` of the next request, or `None` once the fetch is over.
    pub fn next_request(&self) -> (r: Option<i64>)
        ensures
            self.is_done() ==> r is None,
            !self.is_done() ==> r == Some(self.since()),
    {
        if self.done {
            None
        } else {
            Some(self.since)
        }
    }

    /// Takes in the page the exchange returned for the last request.
    pub fn feed(&mut self, page: Vec<OHLC>)
        requires
            old(self).wf(),
            !old(self).is_done(),
        ensures
            final(self).wf(),
            final(self).origin() == old(self).origin(),
            final(self).received() == old(self).received() + page@,
            final(self).is_done() == (page@.len() <= 1),
            page@.len() > 0 ==> final(self).since() == page@.last().time,
            page@.len() == 0 ==> final(self).since() == old(self).since(),
    {
        let ghost before = self.data@;
        let ghost raw = self.received@;
        let mut i: usize = 0;
        while i < page.len()
            invariant
                i <= page@.len(),
                self.origin == old(self).origin,
                self.since == old(self).since,
                self.done == old(self).done,
                raw == old(self).received@,
                self.data@ == before + page@.subrange(0, i as int),
                before == paged(self.origin, raw),
            decreases page@.len() - i,
        {
            self.data.push(page[i].duplicate());
            i = i + 1;
            proof {
                assert(self.data@ =~= before + page@.subrange(0, i as int));
            }
        }
        proof {
            assert(page@.subrange(0, page@.len() as int) =~= page@);
        }
        if self.origin == 0 && self.data.len() > 0 {
            let mut first = self.data[0].duplicate();
            first.first_available = true;
            self.data.set(0, first);
        }
        self.received = Ghost(raw + page@);
        proof {
            let all = raw + page@;
            if self.origin == 0 && all.len() > 0 {
                assert(self.data@ =~= all.update(0, as_first(all[0])));
            } else {
                assert(self.data@ =~= all);
            }
        }
        if page.len() > 0 {
            self.since = page[page.len() - 1].time;
        }
        self.done = page.len() <= 1;
    }

    /// Whether `finish` may be called: no candles, or candles whose chunk
    /// bounds fit in `i64`.
    pub fn can_finish(&self) -> (r: bool)
        ensures
            r == (self@.len() > 0 ==> OHLCChunk::bounds_fit(self@)),
    {
        self.data.len() == 0 || OHLCChunk::fits(&self.data)
    }

    /// The gathered candles as one chunk; `None` when the exchange returned none.
    pub fn finish(self) -> (r: Option<OHLCChunk>)
        requires
            self.wf(),
            self@.len() > 0 ==> OHLCChunk::bounds_fit(self@),
        ensures
            r is None <==> self@.len() == 0,
            r matches Some(c) ==> c.data@ == self@ && c.begin == self@[0].time && c.end
                == self@.last().time,
    {
        if self.data.len() == 0 {
            None
        } else {
            Some(OHLCChunk::new(self.data))
        }
    }
}

/// A fetch from zero gathers every candle the exchange returned, in order,
/// the first of them marked as the exchange's first.
pub proof fn lemma_paging_from_zero(received: Seq<OHLC>)
    ensures
        paged(0, received).len() == received.len(),
        received.len() > 0 ==> paged(0, received)[0] == as_first(received[0])
            && paged(0, received)[0].first_available,
        forall|i: int| 0 < i < received.len() ==> #[trigger] paged(0, received)[i] == received[i],
{
}

/// What to do with a market's background refresh task.
#[derive(Debug, Clone, Copy, PartialEq, Eq, Structural)]
pub enum RefreshAction {
    /// No task runs and none should.
    Nothing,
    /// Start a task at this period.
    Spawn(Interval),
    /// Stop the running task.
    Cancel,
    /// The running task already has the wanted period.
    Keep,
    /// Stop the running task and start one at this period.
    Restart(Interval),
}

/// The refresh table: nothing runs and nothing is wanted, nothing to do;
/// something wanted and nothing runs, start it; something runs and nothing is
/// wanted, stop it; the running period is the wanted one, keep it; else
/// restart at the wanted period.
pub open spec fn refresh_plan(current: Option<Interval>, desired: Option<Interval>) -> RefreshAction {
    match (current, desired) {
        (None, None) => RefreshAction::Nothing,
        (None, Some(d)) => RefreshAction::Spawn(d),
        (Some(_), None) => RefreshAction::Cancel,
        (Some(c), Some(d)) => if c == d {
            RefreshAction::Keep
        } else {
            RefreshAction::Restart(d)
        },
    }
}

/// Reconciles the period of the running refresh task (if any) with the period
/// the market's settings ask for (if any).
pub fn refresh_action(current: Option<Interval>, desired: Option<Interval>) -> (r: RefreshAction)
    ensures
        r == refresh_plan(current, desired),
{
    match (current, desired) {
        (None, None) => RefreshAction::Nothing,
        (None, Some(d)) => RefreshAction::Spawn(d),
        (Some(_), None) => RefreshAction::Cancel,
        (Some(c), Some(d)) => {
            if c == d {
                RefreshAction::Keep
            } else {
                RefreshAction::Restart(d)
            }
        },
    }
}

/// Whether a cached market definition of age `age_secs` may be served under
/// the limit `max_age_secs` (no limit: always).
pub fn cache_is_fresh(age_secs: u64, max_age_secs: Option<u64>) -> (r: bool)
    ensures
        r == match max_age_secs {
            Some(m) => age_secs < m,
            None => true,
        },
{
    match max_age_secs {
        Some(m) => age_secs < m,
        None => true,
    }
}

/// How far back a refresh of an empty tree reaches, in seconds.
pub const REFRESH_DEFAULT_WINDOW: i64 = 86400;

/// Where a background refresh pulls from: the time of the last stored
/// candle, or a default window back from `now` when the tree is empty.
pub fn refresh_since(last: Option<i64>, now: i64) -> (r: i64)
    requires
        now >= i64::MIN + REFRESH_DEFAULT_WINDOW,
    ensures
        r == match last {
            Some(t) => t as int,
            None => now - REFRESH_DEFAULT_WINDOW,
        },
{
    match last {
        Some(t) => t,
        None => now - REFRESH_DEFAULT_WINDOW,
    }
}

/// The page a remote holding the candles `remote` serves after `served` of
/// them went out: the next at most `n`.
pub open spec fn next_page(remote: Seq<OHLC>, n: nat, served: int) -> Seq<OHLC> {
    if served >= remote.len() {
        Seq::empty()
    } else if served + n <= remote.len() {
        remote.subrange(served, served + n)
    } else {
        remote.subrange(served, remote.len() as int)
    }
}

/// Everything a paged fetch receives from such a remote, page after page,
/// up to and including the first page of at most one candle (when `feed`
/// ends the fetch).
pub open spec fn pages_until_done(remote: Seq<OHLC>, n: nat, served: int) -> Seq<OHLC>
    decreases remote.len() - served,
{
    let page = next_page(remote, n, served);
    if page.len() <= 1 || served < 0 || served >= remote.len() {
        page
    } else {
        page + pages_until_done(remote, n, served + page.len())
    }
}

/// A fetch from zero against a remote that serves its candles in disjoint
/// pages of at most `n >= 2` ends (the pages above are finitely many), and
/// gathers every candle of the remote exactly once, in order, the first
/// marked as the exchange's first.
pub proof fn lemma_paging_converges(remote: Seq<OHLC>, n: nat)
    requires
        n >= 2,
    ensures
        pages_until_done(remote, n, 0) == remote,
        paged(0, pages_until_done(remote, n, 0)) == paged(0, remote),
        remote.len() > 0 ==> paged(0, pages_until_done(remote, n, 0))[0].first_available,
{
    lemma_pages_rest(remote, n, 0);
    assert(remote.subrange(0, remote.len() as int) =~= remote);
}

proof fn lemma_pages_rest(remote: Seq<OHLC>, n: nat, served: int)
    requires
        n >= 2,
        0 <= served <= remote.len(),
    ensures
        pages_until_done(remote, n, served) == remote.subrange(served, remote.len() as int),
    decreases remote.len() - served,
{
    let page = next_page(remote, n, served);
    if served >= remote.len() {
        assert(remote.subrange(served, remote.len() as int) =~= Seq::<OHLC>::empty());
    } else if page.len() <= 1 {
        assert(served + n > remote.len());
    } else {
        lemma_pages_rest(remote, n, served + page.len());
        assert(page + remote.subrange(served + page.len(), remote.len() as int) =~= remote.subrange(
            served,
            remote.len() as int,
        ));
    }
}

/// The candles of a page at or after `since`, in order: what a request from
/// `since` returns when the exchange is asked without that bound.
pub fn page_from(page: &Vec<OHLC>, since: i64) -> (r: Vec<OHLC>)
    ensures
        r@ == page@.filter(|c: OHLC| c.time >= since),
{
    let mut r: Vec<OHLC> = Vec::new();
    let mut i: usize = 0;
    while i < page.len()
        invariant
            i <= page@.len(),
            r@ == page@.subrange(0, i as int).filter(|c: OHLC| c.time >= since),
        decreases page@.len() - i,
    {
        proof {
            let next = page@.subrange(0, i + 1);
            assert(next.drop_last() =~= page@.subrange(0, i as int));
            assert(next.last() == page@[i as int]);
            reveal(Seq::filter);
        }
        if page[i].time >= since {
            r.push(page[i].duplicate());
        }
        i = i + 1;
    }
    proof {
        assert(page@.subrange(0, page@.len() as int) =~= page@);
    }
    r
}

} // verus!
