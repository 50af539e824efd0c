use vstd::prelude::*;
use vstd::string::*;

use crate::error::Error;
use crate::interpretor::{ProgramIdentifier, ProgramOutput, ProgramStatus};
use crate::market::{Interval, MarketIdentifier, OHLC, OHLCChunk};
use crate::store::{StoreMarketHandle, window};
use crate::sync::{SyncMarket, SyncStep, periode_available};

verus! {

/// The id of an event listener.
pub type ListenerIdentifier = u64;

/// What the reactor tells its listeners.
#[derive(Debug, PartialEq, Eq)]
pub enum ReactorEvent {
    ProgramOutput { id: ProgramIdentifier, content: ProgramOutput },
    ProgramStatus { id: ProgramIdentifier, status: ProgramStatus },
    RuntimeCreated { id: ProgramIdentifier },
    RuntimeDestroyed { id: ProgramIdentifier },
}

/// The events a program's supervisor sends, in order: the program was
/// created, each of its outputs, the program was destroyed.
pub fn runtime_events(id: ProgramIdentifier, outputs: Vec<ProgramOutput>) -> (r: Vec<ReactorEvent>)
    ensures
        r@.len() == outputs@.len() + 2,
        r@[0] == (ReactorEvent::RuntimeCreated { id }),
        forall|i: int| 0 <= i < outputs@.len() ==> r@[i + 1] == (ReactorEvent::ProgramOutput { id, content: #[trigger] outputs@[i] }),
        r@.last() == (ReactorEvent::RuntimeDestroyed { id }),
{
    let mut r: Vec<ReactorEvent> = Vec::new();
    r.push(ReactorEvent::RuntimeCreated { id });
    let mut rest = outputs;
    let ghost all = rest@;
    let total = rest.len();
    let mut i: usize = 0;
    while rest.len() > 0
        invariant
            total == all.len(),
            i <= total,
            rest@ == all.subrange(i as int, all.len() as int),
            r@.len() == i + 1,
            r@[0] == (ReactorEvent::RuntimeCreated { id }),
            forall|k: int| 0 <= k < i ==> r@[k + 1] == (ReactorEvent::ProgramOutput { id, content: #[trigger] all[k] }),
        decreases rest@.len(),
    {
        let o = rest.remove(0);
        proof {
            assert(o == all[i as int]);
            assert(rest@ =~= all.subrange(i + 1, all.len() as int));
        }
        r.push(ReactorEvent::ProgramOutput { id, content: o });
        i = i + 1;
    }
    r.push(ReactorEvent::RuntimeDestroyed { id });
    r
}

proof fn lemma_push_contains(s: Seq<u64>, v: u64, y: u64)
    ensures
        s.push(v).contains(y) <==> (s.contains(y) || y == v),
{
    let t = s.push(v);
    if s.contains(y) {
        let k = choose|k: int| 0 <= k < s.len() && s[k] == y;
        assert(t[k] == y);
    }
    if y == v {
        assert(t[s.len() as int] == y);
    }
    if t.contains(y) && y != v {
        let k = choose|k: int| 0 <= k < t.len() && t[k] == y;
        assert(k < s.len());
        assert(s[k] == y);
    }
}

/// The registries of the reactor: exchanges by name, markets, running
/// programs and listeners, with the counters that hand out ids.
pub struct Reactor {
    exchanges: Vec<String>,
    markets: Vec<SyncMarket>,
    programs: Vec<ProgramIdentifier>,
    listeners: Vec<ListenerIdentifier>,
    listener_counter: u64,
    process_counter: u64,
}

impl Reactor {
    /// The registered listeners, in order of registration.
    pub closed spec fn listener_ids(&self) -> Seq<ListenerIdentifier> {
        self.listeners@
    }

    /// The running programs.
    pub closed spec fn program_ids(&self) -> Seq<ProgramIdentifier> {
        self.programs@
    }

    /// The names of the registered exchanges.
    pub closed spec fn exchange_names(&self) -> Seq<Seq<char>> {
        self.exchanges@.map_values(|e: String| e@)
    }

    /// The markets registered.
    pub closed spec fn market_ids(&self) -> Seq<(Seq<char>, Seq<char>, Seq<char>)> {
        self.markets@.map_values(|m: SyncMarket| m.store.market().key())
    }

    /// The candles held for market `k` at `i`.
    pub closed spec fn market_tree(&self, k: int, i: Interval) -> Seq<OHLC> {
        self.markets@[k].store.tree_view(i)
    }

    /// The next listener id.
    pub closed spec fn next_listener(&self) -> u64 {
        self.listener_counter
    }

    /// The next program id.
    pub closed spec fn next_program(&self) -> u64 {
        self.process_counter
    }

    pub closed spec fn wf(&self) -> bool {
        &&& forall|i: int, j: int| 0 <= i < j < self.exchanges.len() ==> self.exchanges@[i]@ != self.exchanges@[j]@
        &&& forall|i: int, j: int| 0 <= i < j < self.listeners.len() ==> self.listeners@[i] != self.listeners@[j]
        &&& forall|i: int| 0 <= i < self.listeners.len() ==> self.listeners@[i] < self.listener_counter
        &&& forall|k: int| 0 <= k < self.markets.len() ==> (#[trigger] self.markets@[k]).wf()
        &&& forall|k: int, l: int| 0 <= k < l < self.markets.len() ==> (#[trigger] self.markets@[k]).store.market().key()
            != (#[trigger] self.markets@[l]).store.market().key()
    }

    /// A reactor with nothing registered.
    pub fn new() -> (r: Reactor)
        ensures
            r.wf(),
            r.listener_ids().len() == 0,
            r.program_ids().len() == 0,
            r.exchange_names().len() == 0,
            r.market_ids().len() == 0,
            r.next_listener() == 0,
            r.next_program() == 0,
    {
        Reactor {
            exchanges: Vec::new(),
            markets: Vec::new(),
            programs: Vec::new(),
            listeners: Vec::new(),
            listener_counter: 0,
            process_counter: 0,
        }
    }

    /// The id the next listener gets.
    pub fn listener_counter(&self) -> (r: u64)
        ensures
            r == self.next_listener(),
    {
        self.listener_counter
    }

    /// The id the next program gets.
    pub fn process_counter(&self) -> (r: u64)
        ensures
            r == self.next_program(),
    {
        self.process_counter
    }

    /// Registers a listener under a fresh id and gives the id.
    pub fn event_listener(&mut self) -> (r: ListenerIdentifier)
        requires
            old(self).wf(),
            old(self).next_listener() < u64::MAX,
        ensures
            final(self).wf(),
            r == old(self).next_listener(),
            !old(self).listener_ids().contains(r),
            final(self).listener_ids() == old(self).listener_ids().push(r),
            final(self).next_listener() == r + 1,
            final(self).program_ids() == old(self).program_ids(),
            final(self).next_program() == old(self).next_program(),
    {
        let id = self.listener_counter;
        self.listener_counter = self.listener_counter + 1;
        self.listeners.push(id);
        id
    }

    /// Drops the listener `id`.
    pub fn remove_listener(&mut self, id: ListenerIdentifier)
        requires
            old(self).wf(),
        ensures
            final(self).wf(),
            !final(self).listener_ids().contains(id),
            forall|x: ListenerIdentifier| x != id ==> (#[trigger] final(self).listener_ids().contains(x) <==> old(self).listener_ids().contains(x)),
            final(self).next_listener() == old(self).next_listener(),
    {
        let ghost before = self.listeners@;
        let mut kept: Vec<ListenerIdentifier> = Vec::new();
        let mut i: usize = 0;
        while i < self.listeners.len()
            invariant
                self.listeners@ == before,
                i <= before.len(),
                forall|a: int, b: int| 0 <= a < b < kept@.len() ==> kept@[a] != kept@[b],
                forall|x: ListenerIdentifier| #[trigger] kept@.contains(x) <==> (x != id && before.subrange(0, i as int).contains(x)),
                forall|a: int, b: int| 0 <= a < b < before.len() ==> before[a] != before[b],
            decreases before.len() - i,
        {
            let x = self.listeners[i];
            let ghost old_kept = kept@;
            proof {
                assert(before.subrange(0, i + 1) =~= before.subrange(0, i as int).push(x));
                assert(!before.subrange(0, i as int).contains(x)) by {
                    if before.subrange(0, i as int).contains(x) {
                        let k = choose|k: int| 0 <= k < i && before.subrange(0, i as int)[k] == x;
                        assert(before[k] == before[i as int]);
                    }
                }
                assert forall|y: ListenerIdentifier| before.subrange(0, i + 1).contains(y) <==> (before.subrange(0, i as int).contains(y) || y == x) by {
                    lemma_push_contains(before.subrange(0, i as int), x, y);
                }
            }
            if x != id {
                kept.push(x);
                proof {
                    assert forall|y: ListenerIdentifier| #[trigger] kept@.contains(y) <==> (old_kept.contains(y) || y == x) by {
                        lemma_push_contains(old_kept, x, y);
                    }
                    assert(!old_kept.contains(x));
                    assert forall|a: int, b: int| 0 <= a < b < kept@.len() implies kept@[a] != kept@[b] by {
                        if b == kept@.len() - 1 {
                            assert(old_kept.contains(kept@[a]));
                        }
                    }
                }
            }
            i = i + 1;
        }
        proof {
            assert(before.subrange(0, before.len() as int) =~= before);
            assert forall|k: int| 0 <= k < kept@.len() implies kept@[k] < self.listener_counter by {
                assert(kept@.contains(kept@[k]));
                let j = choose|j: int| 0 <= j < before.len() && before[j] == kept@[k];
            }
        }
        self.listeners = kept;
    }

    /// The listeners an event goes to: every registered one, once, in order.
    pub fn broadcast_targets(&self) -> (r: Vec<ListenerIdentifier>)
        requires
            self.wf(),
        ensures
            r@ == self.listener_ids(),
            forall|i: int, j: int| 0 <= i < j < r@.len() ==> r@[i] != r@[j],
    {
        self.listeners.clone()
    }

    /// One broadcast reaches each registered listener exactly once.
    pub proof fn lemma_fan_out_once(&self, targets: Seq<ListenerIdentifier>, id: ListenerIdentifier)
        requires
            self.wf(),
            targets == self.listener_ids(),
            self.listener_ids().contains(id),
        ensures
            exists|k: int| 0 <= k < targets.len() && targets[k] == id && forall|j: int|
                0 <= j < targets.len() && j != k ==> targets[j] != id,
    {
        let k = choose|k: int| 0 <= k < targets.len() && targets[k] == id;
        assert forall|j: int| 0 <= j < targets.len() && j != k implies targets[j] != id by {
            if j < k {
                assert(self.listeners@[j] != self.listeners@[k]);
            } else {
                assert(self.listeners@[k] != self.listeners@[j]);
            }
        }
    }

    /// Hands out the next program id.
    pub fn next_program_id(&mut self) -> (r: ProgramIdentifier)
        requires
            old(self).wf(),
            old(self).next_program() < u64::MAX,
        ensures
            final(self).wf(),
            r == old(self).next_program(),
            final(self).next_program() == r + 1,
            final(self).program_ids() == old(self).program_ids(),
            final(self).listener_ids() == old(self).listener_ids(),
    {
        let id = self.process_counter;
        self.process_counter = self.process_counter + 1;
        id
    }

    /// Records that program `id` runs.
    pub fn register_program(&mut self, id: ProgramIdentifier)
        requires
            old(self).wf(),
        ensures
            final(self).wf(),
            final(self).program_ids() == old(self).program_ids().push(id),
            final(self).listener_ids() == old(self).listener_ids(),
    {
        self.programs.push(id);
    }

    /// Records that program `id` ended.
    pub fn remove_program(&mut self, id: ProgramIdentifier)
        requires
            old(self).wf(),
        ensures
            final(self).wf(),
            !final(self).program_ids().contains(id),
            forall|x: ProgramIdentifier| x != id ==> (#[trigger] final(self).program_ids().contains(x) <==> old(self).program_ids().contains(x)),
            final(self).listener_ids() == old(self).listener_ids(),
    {
        let ghost before = self.programs@;
        let mut kept: Vec<ProgramIdentifier> = Vec::new();
        let mut i: usize = 0;
        while i < self.programs.len()
            invariant
                self.programs@ == before,
                i <= before.len(),
                forall|x: ProgramIdentifier| #[trigger] kept@.contains(x) <==> (x != id && before.subrange(0, i as int).contains(x)),
            decreases before.len() - i,
        {
            let x = self.programs[i];
            let ghost old_kept = kept@;
            proof {
                assert(before.subrange(0, i + 1) =~= before.subrange(0, i as int).push(x));
                assert forall|y: ProgramIdentifier| before.subrange(0, i + 1).contains(y) <==> (before.subrange(0, i as int).contains(y) || y == x) by {
                    lemma_push_contains(before.subrange(0, i as int), x, y);
                }
            }
            if x != id {
                kept.push(x);
                proof {
                    assert forall|y: ProgramIdentifier| #[trigger] kept@.contains(y) <==> (old_kept.contains(y) || y == x) by {
                        lemma_push_contains(old_kept, x, y);
                    }
                }
            }
            i = i + 1;
            proof {
                assert forall|y: ProgramIdentifier| #[trigger] kept@.contains(y) <==> (y != id && before.subrange(0, i as int).contains(y)) by {
                    if x != id {
                        assert(kept@.contains(y) <==> (old_kept.contains(y) || y == x));
                    }
                    assert(before.subrange(0, i as int) =~= before.subrange(0, i - 1).push(x));
                    lemma_push_contains(before.subrange(0, i - 1), x, y);
                }
            }
        }
        proof {
            assert(before.subrange(0, before.len() as int) =~= before);
        }
        self.programs = kept;
    }

    /// Registers an exchange under `name` (once).
    pub fn register_exchange(&mut self, name: String)
        requires
            old(self).wf(),
        ensures
            final(self).wf(),
            final(self).exchange_names().contains(name@),
            forall|n: Seq<char>| n != name@ ==> (#[trigger] final(self).exchange_names().contains(n) <==> old(self).exchange_names().contains(n)),
            final(self).market_ids() == old(self).market_ids(),
            final(self).listener_ids() == old(self).listener_ids(),
            forall|i: int, j: int| 0 <= i < j < final(self).exchange_names().len() ==> final(self).exchange_names()[i]
                != final(self).exchange_names()[j],
    {
        let ghost before = self.exchange_names();
        if !self.has_exchange(name.as_str()) {
            let ghost n0 = name@;
            self.exchanges.push(name);
            proof {
                let after = self.exchange_names();
                assert(after =~= before.push(n0));
                assert forall|i: int, j: int| 0 <= i < j < self.exchanges.len() implies self.exchanges@[i]@ != self.exchanges@[j]@ by {
                    if j == self.exchanges.len() - 1 {
                        assert(before[i] == self.exchanges@[i]@);
                    } else {
                        assert(old(self).exchanges@[i]@ != old(self).exchanges@[j]@);
                    }
                }
                assert(after[after.len() - 1] == n0);
                assert forall|n: Seq<char>| n != n0 implies (#[trigger] after.contains(n) <==> before.contains(n)) by {
                    if after.contains(n) {
                        let k = choose|k: int| 0 <= k < after.len() && after[k] == n;
                        assert(before[k] == n);
                    }
                    if before.contains(n) {
                        let k = choose|k: int| 0 <= k < before.len() && before[k] == n;
                        assert(after[k] == n);
                    }
                }
            }
        }
    }

    /// Whether an exchange is registered under `name`.
    pub fn has_exchange(&self, name: &str) -> (r: bool)
        ensures
            r == self.exchange_names().contains(name@),
    {
        let wanted = String::from_str(name);
        let mut k: usize = 0;
        while k < self.exchanges.len()
            invariant
                k <= self.exchanges@.len(),
                wanted@ == name@,
                forall|j: int| 0 <= j < k ==> self.exchanges@[j]@ != name@,
            decreases self.exchanges@.len() - k,
        {
            if self.exchanges[k] == wanted {
                proof {
                    assert(self.exchange_names()[k as int] == name@);
                }
                return true;
            }
            k = k + 1;
        }
        proof {
            if self.exchange_names().contains(name@) {
                let j = choose|j: int| 0 <= j < self.exchange_names().len() && self.exchange_names()[j] == name@;
                assert(self.exchanges@[j]@ == name@);
            }
        }
        false
    }

    fn find_market(&self, id: &MarketIdentifier) -> (r: Option<usize>)
        ensures
            r matches Some(k) ==> k < self.markets@.len() && self.market_ids()[k as int] == id.key(),
            r is None ==> !self.market_ids().contains(id.key()),
    {
        let mut k: usize = 0;
        while k < self.markets.len()
            invariant
                k <= self.markets@.len(),
                forall|j: int| 0 <= j < k ==> self.markets@[j].store.market().key() != id.key(),
            decreases self.markets@.len() - k,
        {
            let m = self.markets[k].id();
            if m.exchange_name == id.exchange_name && m.base == id.base && m.quote == id.quote {
                return Some(k);
            }
            k = k + 1;
        }
        proof {
            if self.market_ids().contains(id.key()) {
                let j = choose|j: int| 0 <= j < self.market_ids().len() && self.market_ids()[j] == id.key();
                assert(self.markets@[j].store.market().key() == id.key());
            }
        }
        None
    }

    /// Finds the market `id`, or registers it where its exchange is
    /// registered; gives whether it was registered now.
    pub fn get_or_register_market(&mut self, id: &MarketIdentifier) -> (r: Result<bool, Error>)
        requires
            old(self).wf(),
        ensures
            final(self).wf(),
            old(self).market_ids().contains(id.key()) ==> r == Ok::<bool, Error>(false) && final(self).market_ids() == old(self).market_ids(),
            !old(self).market_ids().contains(id.key()) && old(self).exchange_names().contains(id.exchange_name@) ==> r == Ok::<bool, Error>(true)
                && final(self).market_ids() == old(self).market_ids().push(id.key()),
            !old(self).market_ids().contains(id.key()) && !old(self).exchange_names().contains(id.exchange_name@) ==> r is Err
                && final(self).market_ids() == old(self).market_ids(),
            r matches Err(e) ==> e is ExchangeNotFound && e->ExchangeNotFound_0 == id.exchange_name,
            final(self).listener_ids() == old(self).listener_ids(),
            final(self).exchange_names() == old(self).exchange_names(),
    {
        match self.find_market(id) {
            Some(_) => Ok(false),
            None => {
                if !self.has_exchange(id.exchange_name.as_str()) {
                    return Err(Error::ExchangeNotFound(id.exchange_name.clone()));
                }
                let ghost before = *self;
                let market = SyncMarket::new(StoreMarketHandle::new(id.duplicate()));
                self.markets.push(market);
                proof {
                    assert(self.market_ids() =~= before.market_ids().push(id.key()));
                    assert forall|k: int, l: int| 0 <= k < l < self.markets.len() implies (#[trigger] self.markets@[k]).store.market().key()
                        != (#[trigger] self.markets@[l]).store.market().key() by {
                        if l == self.markets.len() - 1 {
                            assert(before.market_ids()[k] == self.markets@[k].store.market().key());
                        } else {
                            assert(before.markets@[k] == self.markets@[k]);
                            assert(before.markets@[l] == self.markets@[l]);
                        }
                    }
                    assert forall|k: int| 0 <= k < self.markets.len() implies (#[trigger] self.markets@[k]).wf() by {
                        if k < before.markets.len() {
                            assert(before.markets@[k] == self.markets@[k]);
                        }
                    }
                }
                Ok(true)
            },
        }
    }

    /// The first step of synchronising market `id` from `from` to `to` at
    /// `interval` (see `SyncMarket::sync_periode`); `NoData` where the market
    /// is not registered.
    pub fn sync_periode(&mut self, id: &MarketIdentifier, from: i64, to: i64, interval: Interval) -> (r: Result<SyncStep, Error>)
        requires
            old(self).wf(),
        ensures
            final(self).wf(),
            final(self).market_ids() == old(self).market_ids(),
            !old(self).market_ids().contains(id.key()) ==> r == Err::<SyncStep, Error>(Error::NoData),
            forall|k: int| 0 <= k < old(self).market_ids().len() && old(self).market_ids()[k] == id.key() ==> (
                periode_available(old(self).market_tree(k, interval), from, to, interval.secs())
                    ==> r == Ok::<SyncStep, Error>(SyncStep::Ready { from, to })) && (
                !periode_available(old(self).market_tree(k, interval), from, to, interval.secs())
                    ==> r == Ok::<SyncStep, Error>(SyncStep::Fetch { since: from, interval })),
    {
        match self.find_market(id) {
            None => Err(Error::NoData),
            Some(k) => {
                let ghost before = *self;
                let mut m = self.markets.remove(k);
                let step = m.sync_periode(from, to, interval);
                self.markets.insert(k, m);
                proof {
                    assert forall|j: int| 0 <= j < self.markets.len() && j != k implies self.markets@[j] == before.markets@[j] by {}
                    assert(self.market_ids() =~= before.market_ids());
                    assert forall|a: int, b: int| 0 <= a < b < self.markets.len() implies (#[trigger] self.markets@[a]).store.market().key()
                        != (#[trigger] self.markets@[b]).store.market().key() by {
                        assert(self.market_ids()[a] == before.market_ids()[a]);
                        assert(self.market_ids()[b] == before.market_ids()[b]);
                    }
                    assert forall|j: int| 0 <= j < before.market_ids().len() && before.market_ids()[j] == id.key() implies j == k by {
                        if j != k {
                            if j < k {
                                assert(before.markets@[j].store.market().key() != before.markets@[k as int].store.market().key());
                            } else {
                                assert(before.markets@[k as int].store.market().key() != before.markets@[j].store.market().key());
                            }
                        }
                    }
                }
                Ok(step)
            },
        }
    }

    /// Stores a fetched chunk for market `id` at `interval` and gives the
    /// range it covers; `NoData` where the market is not registered.
    pub fn store_chunk(&mut self, id: &MarketIdentifier, interval: Interval, chunk: OHLCChunk) -> (r: Result<(i64, i64), Error>)
        requires
            old(self).wf(),
        ensures
            final(self).wf(),
            final(self).market_ids() == old(self).market_ids(),
            !old(self).market_ids().contains(id.key()) ==> r == Err::<(i64, i64), Error>(Error::NoData),
            old(self).market_ids().contains(id.key()) ==> r == Ok::<(i64, i64), Error>((chunk.begin, chunk.end)),
            forall|k: int, i: Interval| 0 <= k < old(self).market_ids().len() && (old(self).market_ids()[k] != id.key()
                || i != interval) ==> #[trigger] final(self).market_tree(k, i) == old(self).market_tree(k, i),
            forall|k: int, x: OHLC| 0 <= k < old(self).market_ids().len() && old(self).market_ids()[k] == id.key() ==> (
                #[trigger] final(self).market_tree(k, interval).contains(x) <==> crate::store::extended_with(
                    old(self).market_tree(k, interval),
                    chunk.data@,
                    x,
                )),
    {
        match self.find_market(id) {
            None => Err(Error::NoData),
            Some(k) => {
                let ghost before = *self;
                let mut m = self.markets.remove(k);
                let ghost m0 = m;
                let range = m.store_chunk(interval, chunk);
                let ghost m1 = m;
                self.markets.insert(k, m);
                proof {
                    assert(m0 == before.markets@[k as int]);
                    assert(self.markets@[k as int] == m1);
                    assert forall|j: int| 0 <= j < before.market_ids().len() && before.market_ids()[j] == id.key() implies j == k by {
                        if j != k {
                            if j < k {
                                assert(before.markets@[j].store.market().key() != before.markets@[k as int].store.market().key());
                            } else {
                                assert(before.markets@[k as int].store.market().key() != before.markets@[j].store.market().key());
                            }
                        }
                    }
                    assert forall|j: int| 0 <= j < self.markets.len() && j != k implies self.markets@[j] == before.markets@[j] by {}
                    assert(self.market_ids() =~= before.market_ids());
                    assert forall|a: int, b: int| 0 <= a < b < self.markets.len() implies (#[trigger] self.markets@[a]).store.market().key()
                        != (#[trigger] self.markets@[b]).store.market().key() by {
                        assert(self.market_ids()[a] == before.market_ids()[a]);
                        assert(self.market_ids()[b] == before.market_ids()[b]);
                    }
                }
                Ok(range)
            },
        }
    }

    /// The stored candles of market `id` at `interval` between `a` and `b`
    /// (see `StoreMarketDataHandle::close_range`); `NoData` where the market
    /// is not registered.
    pub fn close_range(&mut self, id: &MarketIdentifier, interval: Interval, a: i64, b: i64) -> (r: Result<Vec<OHLC>, Error>)
        requires
            old(self).wf(),
        ensures
            final(self).wf(),
            final(self).market_ids() == old(self).market_ids(),
            !old(self).market_ids().contains(id.key()) ==> r == Err::<Vec<OHLC>, Error>(Error::NoData),
            forall|k: int| 0 <= k < old(self).market_ids().len() && old(self).market_ids()[k] == id.key() ==> (
                r matches Ok(v) ==> v@ == window(old(self).market_tree(k, interval), a, b)),
            forall|k: int| 0 <= k < old(self).market_ids().len() && old(self).market_ids()[k] == id.key() ==> (
                r is Ok <==> exists|i: int| 0 <= i < old(self).market_tree(k, interval).len() && a
                    <= #[trigger] old(self).market_tree(k, interval)[i].time <= b),
            r matches Err(e) ==> e == Error::NoData,
    {
        match self.find_market(id) {
            None => Err(Error::NoData),
            Some(k) => {
                let ghost before = *self;
                let mut m = self.markets.remove(k);
                let ghost mk = m;
                let tree = m.store.interval(interval);
                self.markets.insert(k, m);
                proof {
                    assert forall|j: int| 0 <= j < self.markets.len() && j != k implies self.markets@[j] == before.markets@[j] by {}
                    assert(self.market_ids() =~= before.market_ids());
                    assert forall|a1: int, b1: int| 0 <= a1 < b1 < self.markets.len() implies (#[trigger] self.markets@[a1]).store.market().key()
                        != (#[trigger] self.markets@[b1]).store.market().key() by {
                        assert(self.market_ids()[a1] == before.market_ids()[a1]);
                        assert(self.market_ids()[b1] == before.market_ids()[b1]);
                    }
                    assert forall|j: int| 0 <= j < before.market_ids().len() && before.market_ids()[j] == id.key() implies j == k by {
                        if j != k {
                            if j < k {
                                assert(before.markets@[j].store.market().key() != before.markets@[k as int].store.market().key());
                            } else {
                                assert(before.markets@[k as int].store.market().key() != before.markets@[j].store.market().key());
                            }
                        }
                    }
                }
                proof {
                    assert(mk == before.markets@[k as int]);
                    assert(tree@ == before.market_tree(k as int, interval));
                }
                tree.close_range(a, b)
            },
        }
    }
}

} // verus!
